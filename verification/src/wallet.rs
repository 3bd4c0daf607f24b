//! The wallet's note commitment tree: strictly ordered appends, checkpoints
//! per block, rewind, and the positions of the wallet's own notes by
//! transaction.

use vstd::prelude::*;
use crate::assoc::{
    assoc_map, keys_distinct, lemma_assoc_absent, lemma_assoc_at, lemma_assoc_empty,
    lemma_assoc_insert, lemma_assoc_remove, lemma_assoc_update,
};
use crate::frontier::{byte_seqs, FrontierError, MAX_LEAVES};
use crate::sapling_frontier::SaplingFrontier;
use crate::sapling_node::{sapling_all_valid, sapling_commitment_valid};
use crate::tree::{CheckpointedTree, TreeModel};

verus! {

/// The number of checkpoints that the wallet's tree keeps.
pub const MAX_CHECKPOINTS: usize = 100;

/// Where the most recent append stood: its block, and within the block its
/// transaction and output where they are known.
#[derive(Clone, Copy, Debug)]
pub struct LastObserved {
    pub block_height: u32,
    pub block_tx_idx: Option<usize>,
    pub tx_output_idx: Option<usize>,
}

/// Why an append was refused.
#[derive(Clone, Copy, Debug)]
pub enum WalletError {
    /// The append does not follow the last one: the cursor, then the block
    /// height, transaction index and output index that were offered.
    OutOfOrder(LastObserved, u32, usize, usize),
    /// The tree cannot hold the leaves offered.
    NoteCommitmentTreeFull,
    /// Some bytes offered are not the encoding of a note commitment.
    InvalidCommitment,
}

/// Why a tree was not started from a frontier: it holds checkpoints or
/// marked positions, as many as given.
#[derive(Clone, Copy, Debug, PartialEq, Eq, Structural)]
pub struct TreeInUse {
    pub checkpoints: usize,
    pub marked: usize,
}

/// Why a rewind was refused.
#[derive(Clone, Copy, Debug)]
pub enum RewindError {
    /// Too few checkpoints are held to reach the height asked for, and a
    /// marked position would be lost; the payload is the number held.
    InsufficientCheckpoints(usize),
}

/// The positions of one transaction's notes: the height of its block, and the
/// leaf position of each output that belongs to the wallet.
pub struct NotePositionsModel {
    pub tx_height: u32,
    pub note_positions: Map<usize, u64>,
}

/// The state of a wallet.
pub struct WalletModel {
    pub tree: TreeModel,
    pub last_checkpoint: Option<u32>,
    pub last_observed: Option<LastObserved>,
    pub note_positions: Map<Seq<u8>, NotePositionsModel>,
}

/// An append at (`height`, `tx_idx`, `output_idx`) strictly follows the cursor:
/// a later block, or a later transaction of the same block, or, for a single
/// output, a later output of the same transaction.
pub open spec fn follows(
    last: LastObserved,
    height: u32,
    tx_idx: usize,
    output_idx: Option<usize>,
) -> bool {
    ||| height > last.block_height
    ||| (height == last.block_height && last.block_tx_idx.is_some() && last.block_tx_idx.unwrap()
        < tx_idx)
    ||| (output_idx.is_some() && height == last.block_height && last.block_tx_idx == Some(tx_idx)
        && last.tx_output_idx.is_some() && last.tx_output_idx.unwrap() < output_idx.unwrap())
}

/// The cursor after a rewind to `height`.
pub open spec fn cursor_at(height: u32) -> LastObserved {
    LastObserved { block_height: height, block_tx_idx: None, tx_output_idx: None }
}

/// The tags of the tree's checkpoints are consecutive heights that end at the
/// wallet's last checkpoint; the tree has none where the wallet has none.
pub open spec fn checkpoints_follow(tree: TreeModel, last_checkpoint: Option<u32>) -> bool {
    match last_checkpoint {
        None => tree.checkpoints.len() == 0,
        Some(h) => {
            &&& tree.checkpoints.len() >= 1
            &&& forall|i: int|
                0 <= i < tree.checkpoints.len() ==> (#[trigger] tree.checkpoints[i]).id
                    + (tree.checkpoints.len() - 1 - i) == h
        },
    }
}

impl WalletModel {
    /// The wallet without leaves, checkpoints or position records.
    pub open spec fn empty() -> WalletModel {
        WalletModel {
            tree: TreeModel::empty(MAX_CHECKPOINTS as nat),
            last_checkpoint: None,
            last_observed: None,
            note_positions: Map::empty(),
        }
    }

    /// The tree is well formed and bounded, and its checkpoints are those of
    /// the blocks up to the last checkpoint.
    pub open spec fn wf(self) -> bool {
        &&& self.tree.wf()
        &&& self.tree.bounded()
        &&& self.tree.max_checkpoints == MAX_CHECKPOINTS
        &&& checkpoints_follow(self.tree, self.last_checkpoint)
    }

    /// Whether an append at these coordinates is in order.
    pub open spec fn accepts(self, height: u32, tx_idx: usize, output_idx: Option<usize>) -> bool {
        self.last_observed.is_some() ==> follows(
            self.last_observed.unwrap(),
            height,
            tx_idx,
            output_idx,
        )
    }

    /// A checkpoint at `height` is taken where none was taken before, or
    /// where the last one was taken at the height just below.
    pub open spec fn accepts_checkpoint(self, height: u32) -> bool {
        self.last_checkpoint.is_some() ==> self.last_checkpoint.unwrap() + 1 == height
    }

    /// The wallet after a checkpoint at `height`.
    pub open spec fn checkpointed(self, height: u32) -> WalletModel {
        WalletModel {
            tree: self.tree.checkpointed(height),
            last_checkpoint: Some(height),
            ..self
        }
    }

    /// The wallet after garbage collection: no retired checkpoint of its tree
    /// is held any more.
    pub open spec fn collected(self) -> WalletModel {
        WalletModel { tree: self.tree.collected(), ..self }
    }

    /// The number of checkpoints that a rewind to `height` goes back.
    pub open spec fn rewind_distance(self, height: u32) -> nat {
        if self.last_checkpoint.is_some() && height < self.last_checkpoint.unwrap() {
            (self.last_checkpoint.unwrap() - height) as nat
        } else {
            0
        }
    }

    /// A rewind to `height` is refused where it needs more checkpoints than
    /// are held while a mark would remain after the last of them.
    pub open spec fn refuses_rewind(self, height: u32) -> bool {
        match self.last_checkpoint {
            Some(h) => height < h && self.tree.checkpoints.len() < self.rewind_distance(height)
                && self.tree.lasting_marks().len() > 0,
            None => self.tree.marks.len() > 0,
        }
    }

    /// What a rewind to `height` returns.
    pub open spec fn rewind_outcome(self, height: u32) -> Result<u32, RewindError> {
        if self.refuses_rewind(height) {
            Err(RewindError::InsufficientCheckpoints(self.tree.checkpoints.len() as usize))
        } else if self.last_checkpoint.is_some() && height >= self.last_checkpoint.unwrap() {
            Ok(self.last_checkpoint.unwrap())
        } else {
            Ok(height)
        }
    }

    /// The records of the transactions mined at `height` or below.
    pub open spec fn positions_up_to(self, height: u32) -> Map<Seq<u8>, NotePositionsModel> {
        Map::new(
            |k: Seq<u8>| self.note_positions.dom().contains(k) && self.note_positions[k].tx_height
                <= height,
            |k: Seq<u8>| self.note_positions[k],
        )
    }

    /// The wallet after a rewind to `height`.
    pub open spec fn rewound(self, height: u32) -> WalletModel {
        if self.refuses_rewind(height) {
            self
        } else {
            match self.last_checkpoint {
                Some(h) => if height >= h {
                    self
                } else {
                    WalletModel {
                        tree: self.tree.rewound_by(self.rewind_distance(height)),
                        last_checkpoint: if self.tree.checkpoints.len() > self.rewind_distance(
                            height,
                        ) {
                            Some(height)
                        } else {
                            None
                        },
                        last_observed: Some(cursor_at(height)),
                        note_positions: self.positions_up_to(height),
                    }
                },
                None => WalletModel { last_observed: Some(cursor_at(height)), ..self },
            }
        }
    }

    /// The wallet that tracks the transaction `txid`, mined at `height`,
    /// with no position recorded for it.
    pub open spec fn tracking(self, height: u32, txid: Seq<u8>) -> WalletModel {
        WalletModel {
            note_positions: self.note_positions.insert(
                txid,
                NotePositionsModel { tx_height: height, note_positions: Map::empty() },
            ),
            ..self
        }
    }

    /// The wallet that no longer tracks the transaction `txid`.
    pub open spec fn untracking(self, txid: Seq<u8>) -> WalletModel {
        WalletModel { note_positions: self.note_positions.remove(txid), ..self }
    }

    /// The wallet after the outputs of one transaction were appended.
    pub open spec fn with_bundle(self, height: u32, tx_idx: usize, leaves: Seq<Seq<u8>>) -> WalletModel {
        WalletModel {
            tree: self.tree.appended_all(leaves),
            last_observed: Some(
                LastObserved {
                    block_height: height,
                    block_tx_idx: Some(tx_idx),
                    tx_output_idx: None,
                },
            ),
            ..self
        }
    }

    /// An output of the wallet's own can be recorded for `txid` under
    /// `output_idx`: the transaction is tracked and holds no such output yet.
    pub open spec fn can_record(self, txid: Seq<u8>, output_idx: usize) -> bool {
        self.note_positions.dom().contains(txid) && !self.note_positions[txid].note_positions.dom().contains(
            output_idx,
        )
    }

    /// The wallet after one output was appended; if it is the wallet's own,
    /// its leaf is marked and its position recorded for the transaction.
    pub open spec fn with_output(
        self,
        height: u32,
        txid: Seq<u8>,
        tx_idx: usize,
        output_idx: usize,
        leaf: Seq<u8>,
        is_mine: bool,
    ) -> WalletModel {
        let cursor = LastObserved {
            block_height: height,
            block_tx_idx: Some(tx_idx),
            tx_output_idx: Some(output_idx),
        };
        if is_mine {
            WalletModel {
                tree: self.tree.appended(leaf).marked(),
                last_observed: Some(cursor),
                note_positions: self.note_positions.insert(
                    txid,
                    NotePositionsModel {
                        tx_height: self.note_positions[txid].tx_height,
                        note_positions: self.note_positions[txid].note_positions.insert(
                            output_idx,
                            self.tree.frontier.size as u64,
                        ),
                    },
                ),
                ..self
            }
        } else {
            WalletModel { tree: self.tree.appended(leaf), last_observed: Some(cursor), ..self }
        }
    }

    /// What starting the tree from a frontier returns: refused where the
    /// tree holds a checkpoint or a marked position.
    pub open spec fn init_outcome(self) -> Result<(), TreeInUse> {
        if self.tree.checkpoints.len() == 0 && self.tree.marks.len() == 0 {
            Ok(())
        } else {
            Err(
                TreeInUse {
                    checkpoints: self.tree.checkpoints.len() as usize,
                    marked: self.tree.marks.len() as usize,
                },
            )
        }
    }

    /// What the append of a transaction's outputs returns: refused out of
    /// order; else refused for bytes that encode no commitment; else refused
    /// where the tree cannot hold them all; else done.
    pub open spec fn bundle_outcome(self, height: u32, tx_idx: usize, leaves: Seq<Seq<u8>>) -> Result<
        (),
        WalletError,
    > {
        if !self.accepts(height, tx_idx, None) {
            Err(WalletError::OutOfOrder(self.last_observed.unwrap(), height, tx_idx, 0))
        } else if !sapling_all_valid(leaves) {
            Err(WalletError::InvalidCommitment)
        } else if self.tree.frontier.size + leaves.len() > MAX_LEAVES {
            Err(WalletError::NoteCommitmentTreeFull)
        } else {
            Ok(())
        }
    }

    /// What the append of one output returns, in the same order of refusals.
    pub open spec fn output_outcome(
        self,
        height: u32,
        tx_idx: usize,
        output_idx: usize,
        leaf: Seq<u8>,
    ) -> Result<(), WalletError> {
        if !self.accepts(height, tx_idx, Some(output_idx)) {
            Err(WalletError::OutOfOrder(self.last_observed.unwrap(), height, tx_idx, output_idx))
        } else if !sapling_commitment_valid(leaf) {
            Err(WalletError::InvalidCommitment)
        } else if self.tree.frontier.size >= MAX_LEAVES {
            Err(WalletError::NoteCommitmentTreeFull)
        } else {
            Ok(())
        }
    }
}

/// Whether an append at these coordinates follows the cursor.
fn in_order(
    cursor: &Option<LastObserved>,
    height: u32,
    tx_idx: usize,
    output_idx: Option<usize>,
) -> (b: bool)
    ensures
        b == (cursor.is_some() ==> follows(cursor.unwrap(), height, tx_idx, output_idx)),
{
    match cursor {
        None => true,
        Some(last) => {
            if height > last.block_height {
                return true;
            }
            if height < last.block_height {
                return false;
            }
            match last.block_tx_idx {
                None => false,
                Some(t) => {
                    if t < tx_idx {
                        true
                    } else if t == tx_idx {
                        match (last.tx_output_idx, output_idx) {
                            (Some(p), Some(o)) => p < o,
                            _ => false,
                        }
                    } else {
                        false
                    }
                },
            }
        },
    }
}

/// A transaction identifier read as a number, first byte most significant:
/// the order in which the records are kept.
pub open spec fn txid_rank(txid: Seq<u8>) -> nat
    decreases txid.len(),
{
    if txid.len() == 0 {
        0
    } else {
        txid_rank(txid.drop_last()) * 256 + txid.last() as nat
    }
}

/// How one key stands to another.
#[derive(Clone, Copy, Debug, PartialEq, Eq, Structural)]
pub enum KeyOrder {
    Below,
    Same,
    Above,
}

/// Orders two transaction identifiers by rank; they rank alike only where
/// they are the same bytes.
pub fn txid_order(a: &[u8; 32], b: &[u8; 32]) -> (r: KeyOrder)
    ensures
        (r == KeyOrder::Below) == (txid_rank(a@) < txid_rank(b@)),
        (r == KeyOrder::Above) == (txid_rank(a@) > txid_rank(b@)),
        (r == KeyOrder::Same) == (a@ == b@),
{
    let mut state = KeyOrder::Same;
    let mut i: usize = 0;
    proof {
        assert(a@.take(0) =~= b@.take(0));
    }
    while i < 32
        invariant
            i <= 32,
            (state == KeyOrder::Below) == (txid_rank(a@.take(i as int)) < txid_rank(b@.take(i as int))),
            (state == KeyOrder::Above) == (txid_rank(a@.take(i as int)) > txid_rank(b@.take(i as int))),
            (state == KeyOrder::Same) == (a@.take(i as int) == b@.take(i as int)),
        decreases 32 - i,
    {
        proof {
            assert(a@.take(i + 1).drop_last() =~= a@.take(i as int));
            assert(b@.take(i + 1).drop_last() =~= b@.take(i as int));
            assert(a@.take(i + 1).last() == a@[i as int]);
            assert(b@.take(i + 1).last() == b@[i as int]);
            if a@.take(i + 1) == b@.take(i + 1) {
                assert(a@.take(i as int) =~= a@.take(i + 1).drop_last());
                assert(a@.take(i as int) == b@.take(i as int));
            }
            if a@.take(i as int) == b@.take(i as int) && a@[i as int] == b@[i as int] {
                assert(a@.take(i + 1) =~= b@.take(i + 1));
            }
        }
        if state == KeyOrder::Same {
            if a[i] < b[i] {
                state = KeyOrder::Below;
            } else if a[i] > b[i] {
                state = KeyOrder::Above;
            }
        }
        i += 1;
    }
    proof {
        assert(a@.take(32) =~= a@);
        assert(b@.take(32) =~= b@);
    }
    state
}

/// The positions held for one transaction.
pub struct NotePositions {
    pub(crate) tx_height: u32,
    pub(crate) note_positions: Vec<(usize, u64)>,
}

impl NotePositions {
    /// The height of the transaction and the positions by output index.
    pub open(crate) spec fn view(&self) -> NotePositionsModel {
        NotePositionsModel {
            tx_height: self.tx_height,
            note_positions: assoc_map(self.note_positions@),
        }
    }

    /// The outputs are kept in the order of their indices, each once.
    pub open(crate) spec fn wf(&self) -> bool {
        forall|i: int, j: int|
            0 <= i < j < self.note_positions@.len() ==> self.note_positions@[i].0
                < self.note_positions@[j].0
    }

    /// Notes in the order of their indices have distinct indices.
    proof fn lemma_distinct(&self)
        requires
            self.wf(),
        ensures
            keys_distinct(self.note_positions@),
    {
    }

    /// The record of a transaction at `height` with no position yet.
    fn new(height: u32) -> (n: Self)
        ensures
            n.wf(),
            n@ == (NotePositionsModel { tx_height: height, note_positions: Map::empty() }),
    {
        let n = NotePositions { tx_height: height, note_positions: Vec::new() };
        proof {
            lemma_assoc_empty::<usize, u64>();
            assert(n.note_positions@ =~= Seq::empty());
        }
        n
    }

    /// The position recorded for an output.
    fn get(&self, output_idx: usize) -> (r: Option<u64>)
        requires
            self.wf(),
        ensures
            match r {
                Some(p) => self@.note_positions.dom().contains(output_idx)
                    && self@.note_positions[output_idx] == p,
                None => !self@.note_positions.dom().contains(output_idx),
            },
    {
        let mut i: usize = 0;
        while i < self.note_positions.len()
            invariant
                i <= self.note_positions@.len(),
                self.wf(),
                forall|k: int| 0 <= k < i ==> (#[trigger] self.note_positions@[k]).0 != output_idx,
            decreases self.note_positions@.len() - i,
        {
            if self.note_positions[i].0 == output_idx {
                proof {
                    self.lemma_distinct();
                    lemma_assoc_at(self.note_positions@, i as int);
                }
                return Some(self.note_positions[i].1);
            }
            i += 1;
        }
        proof {
            lemma_assoc_absent(self.note_positions@, output_idx);
        }
        None
    }

    /// Records the position of an output that has none yet.
    fn insert(&mut self, output_idx: usize, position: u64)
        requires
            old(self).wf(),
            !old(self)@.note_positions.dom().contains(output_idx),
        ensures
            final(self).wf(),
            final(self)@ == (NotePositionsModel {
                tx_height: old(self)@.tx_height,
                note_positions: old(self)@.note_positions.insert(output_idx, position),
            }),
    {
        let mut i: usize = 0;
        proof {
            self.lemma_distinct();
        }
        while i < self.note_positions.len() && self.note_positions[i].0 < output_idx
            invariant
                i <= self.note_positions@.len(),
                *self == *old(self),
                forall|k: int| 0 <= k < i ==> (#[trigger] self.note_positions@[k]).0 < output_idx,
            decreases self.note_positions@.len() - i,
        {
            i += 1;
        }
        proof {
            assert forall|k: int| 0 <= k < self.note_positions@.len() implies (
            #[trigger] self.note_positions@[k]).0 != output_idx by {
                if self.note_positions@[k].0 == output_idx {
                    lemma_assoc_at(self.note_positions@, k);
                }
            }
            assert forall|k: int| i <= k < self.note_positions@.len() implies (
            #[trigger] self.note_positions@[k]).0 > output_idx by {
                if i < k {
                    assert(self.note_positions@[i as int].0 < self.note_positions@[k].0);
                }
            }
            lemma_assoc_insert(self.note_positions@, i as int, output_idx, position);
        }
        self.note_positions.insert(i, (output_idx, position));
    }
}

/// The record of one tracked transaction.
pub struct TxRecord {
    pub(crate) txid: [u8; 32],
    pub(crate) notes: NotePositions,
}

/// The records as pairs of a transaction identifier and its positions.
pub open(crate) spec fn record_pairs(records: Seq<TxRecord>) -> Seq<(Seq<u8>, NotePositionsModel)> {
    Seq::new(records.len(), |i: int| (records[i].txid@, records[i].notes@))
}

/// The records are kept in the order of their identifiers, each transaction
/// once, and each is well formed.
pub open(crate) spec fn records_wf(records: Seq<TxRecord>) -> bool {
    &&& forall|i: int, j: int|
        0 <= i < j < records.len() ==> txid_rank(records[i].txid@) < txid_rank(records[j].txid@)
    &&& forall|i: int| 0 <= i < records.len() ==> (#[trigger] records[i]).notes.wf()
}

/// Records in the order of their identifiers have distinct identifiers.
proof fn lemma_records_distinct(records: Seq<TxRecord>)
    requires
        records_wf(records),
    ensures
        keys_distinct(record_pairs(records)),
{
    let pairs = record_pairs(records);
    assert forall|i: int, j: int| 0 <= i < j < pairs.len() implies pairs[i].0 != pairs[j].0 by {
        assert(txid_rank(records[i].txid@) < txid_rank(records[j].txid@));
    }
}

/// The wallet's view of the note commitment tree.
pub struct Wallet {
    pub(crate) wallet_note_positions: Vec<TxRecord>,
    pub(crate) commitment_tree: CheckpointedTree,
    pub(crate) last_checkpoint: Option<u32>,
    pub(crate) last_observed: Option<LastObserved>,
}

impl Wallet {
    /// The state of the wallet.
    pub open(crate) spec fn view(&self) -> WalletModel {
        WalletModel {
            tree: self.commitment_tree@,
            last_checkpoint: self.last_checkpoint,
            last_observed: self.last_observed,
            note_positions: assoc_map(record_pairs(self.wallet_note_positions@)),
        }
    }

    /// The invariant of the wallet.
    pub open(crate) spec fn wf(&self) -> bool {
        self@.wf() && records_wf(self.wallet_note_positions@)
    }

    /// A well-formed wallet has a well-formed state.
    pub proof fn lemma_wf(&self)
        requires
            self.wf(),
        ensures
            self@.wf(),
    {
    }

    /// The wallet that has observed nothing.
    pub fn empty() -> (w: Self)
        ensures
            w.wf(),
            w@ == WalletModel::empty(),
    {
        let w = Wallet {
            wallet_note_positions: Vec::new(),
            commitment_tree: CheckpointedTree::new(MAX_CHECKPOINTS),
            last_checkpoint: None,
            last_observed: None,
        };
        proof {
            lemma_assoc_empty::<Seq<u8>, NotePositionsModel>();
            assert(record_pairs(w.wallet_note_positions@) =~= Seq::empty());
        }
        w
    }

    /// Puts the wallet back to the state that has observed nothing, as before
    /// a rescan: every leaf, mark, checkpoint and position record is dropped.
    pub fn reset(&mut self)
        ensures
            final(self).wf(),
            final(self)@ == WalletModel::empty(),
    {
        *self = Wallet::empty();
    }

    /// The height of the last checkpoint, if one was taken.
    pub fn last_checkpoint(&self) -> (h: Option<u32>)
        ensures
            h == self@.last_checkpoint,
    {
        self.last_checkpoint
    }

    /// The coordinates of the most recent append, if any.
    pub fn last_observed(&self) -> (c: Option<LastObserved>)
        ensures
            c == self@.last_observed,
    {
        self.last_observed
    }

    /// The number of leaves in the tree.
    pub fn tree_size(&self) -> (n: u64)
        ensures
            n == self@.tree.frontier.size,
    {
        self.commitment_tree.size()
    }

    /// The number of marked positions.
    pub fn marked_count(&self) -> (n: usize)
        ensures
            n == self@.tree.marks.len(),
    {
        self.commitment_tree.marked_count()
    }

    /// The number of checkpoints held.
    pub fn checkpoint_count(&self) -> (n: usize)
        ensures
            n == self@.tree.checkpoints.len(),
    {
        self.commitment_tree.checkpoint_count()
    }

    /// Takes the checkpoint of the block at `block_height`. Refused, with the
    /// wallet unchanged, unless this is the first checkpoint or the height is
    /// one above that of the last.
    pub fn checkpoint(&mut self, block_height: u32) -> (taken: bool)
        requires
            old(self).wf(),
        ensures
            final(self).wf(),
            taken == old(self)@.accepts_checkpoint(block_height),
            taken ==> final(self)@ == old(self)@.checkpointed(block_height),
            !taken ==> final(self)@ == old(self)@,
    {
        if let Some(last_height) = self.last_checkpoint {
            if last_height == u32::MAX || block_height != last_height + 1 {
                return false;
            }
        }
        let ghost before = self@.tree;
        let taken = self.commitment_tree.checkpoint(block_height);
        proof {
            let n = before.checkpoints.len() as int;
            if n > 0 {
                assert(before.checkpoints[n - 1].id + 0 == self.last_checkpoint.unwrap());
            }
            assert(taken);
            let pushed = before.checkpoints.push(
                crate::tree::CheckpointModel {
                    id: block_height,
                    frontier: before.frontier,
                    marks_len: before.marks.len(),
                },
            );
            let after = self@.tree.checkpoints;
            let drop = pushed.len() - after.len();
            assert(after =~= pushed.skip(drop));
            assert forall|i: int| 0 <= i < after.len() implies (#[trigger] after[i]).id + (after.len()
                - 1 - i) == block_height by {
                assert(after[i] == pushed[i + drop]);
                if i + drop < n {
                    assert(before.checkpoints[i + drop].id + (n - 1 - (i + drop))
                        == self.last_checkpoint.unwrap());
                }
            }
        }
        self.last_checkpoint = Some(block_height);
        true
    }

    /// The root of the tree as of `checkpoint_depth` checkpoints ago, 0 being
    /// the tip; `None` where fewer checkpoints are held.
    pub fn note_commitment_tree_root(&self, checkpoint_depth: usize) -> (r: Option<[u8; 32]>)
        ensures
            match r {
                Some(bytes) => self@.tree.root_at(checkpoint_depth as nat) == Some(bytes@),
                None => self@.tree.root_at(checkpoint_depth as nat).is_none(),
            },
    {
        self.commitment_tree.root(checkpoint_depth)
    }

    /// Discards the records of the checkpoints that no rewind can reach any
    /// more: those that were retired when newer checkpoints were taken. What
    /// a rewind can reach, the marked positions, the leaves, the cursor and
    /// the position records stay as they are.
    pub fn garbage_collect(&mut self)
        requires
            old(self).wf(),
        ensures
            final(self).wf(),
            final(self)@ == old(self)@.collected(),
    {
        self.commitment_tree.garbage_collect();
    }

    /// The number of retired checkpoints whose records are still held.
    pub fn retired_checkpoint_count(&self) -> (n: usize)
        ensures
            n == self@.tree.retired.len(),
    {
        self.commitment_tree.retired_count()
    }

    /// Where the record of `txid` stands or would stand.
    fn locate(&self, txid: &[u8; 32]) -> (r: (usize, bool))
        requires
            records_wf(self.wallet_note_positions@),
        ensures
            r.0 <= self.wallet_note_positions@.len(),
            forall|i: int|
                0 <= i < r.0 ==> txid_rank((#[trigger] self.wallet_note_positions@[i]).txid@)
                    < txid_rank(txid@),
            forall|i: int|
                r.0 + (if r.1 { 1int } else { 0int }) <= i < self.wallet_note_positions@.len()
                    ==> txid_rank((#[trigger] self.wallet_note_positions@[i]).txid@) > txid_rank(
                    txid@,
                ),
            r.1 ==> r.0 < self.wallet_note_positions@.len()
                && self.wallet_note_positions@[r.0 as int].txid@ == txid@,
            r.1 == self@.note_positions.dom().contains(txid@),
            r.1 ==> self@.note_positions[txid@] == self.wallet_note_positions@[r.0 as int].notes@,
    {
        let mut i: usize = 0;
        let mut found = false;
        let ghost records = self.wallet_note_positions@;
        while i < self.wallet_note_positions.len()
            invariant_except_break
                !found,
            invariant
                records == self.wallet_note_positions@,
                records_wf(records),
                i <= records.len(),
                forall|k: int| 0 <= k < i ==> txid_rank((#[trigger] records[k]).txid@) < txid_rank(txid@),
            ensures
                i <= records.len(),
                forall|k: int| 0 <= k < i ==> txid_rank((#[trigger] records[k]).txid@) < txid_rank(txid@),
                found ==> i < records.len() && records[i as int].txid@ == txid@,
                !found ==> (i == records.len() || txid_rank(records[i as int].txid@) > txid_rank(txid@)),
            decreases records.len() - i,
        {
            match txid_order(&self.wallet_note_positions[i].txid, txid) {
                KeyOrder::Below => {
                    i += 1;
                },
                KeyOrder::Same => {
                    found = true;
                    break ;
                },
                KeyOrder::Above => {
                    break ;
                },
            }
        }
        proof {
            lemma_records_distinct(records);
            let pairs = record_pairs(records);
            assert forall|k: int| i + (if found { 1int } else { 0int }) <= k < records.len() implies txid_rank(
                (#[trigger] records[k]).txid@,
            ) > txid_rank(txid@) by {
                if i < k {
                    assert(txid_rank(records[i as int].txid@) < txid_rank(records[k].txid@));
                }
            }
            if found {
                assert(pairs[i as int].0 == txid@);
                lemma_assoc_at(pairs, i as int);
            } else {
                assert forall|k: int| 0 <= k < pairs.len() implies (#[trigger] pairs[k]).0 != txid@ by {
                    if k < i {
                        assert(txid_rank(records[k].txid@) < txid_rank(txid@));
                    } else {
                        assert(txid_rank(records[k].txid@) > txid_rank(txid@));
                    }
                }
                lemma_assoc_absent(pairs, txid@);
            }
        }
        (i, found)
    }

    /// Whether the transaction `txid` is tracked.
    pub fn tracks(&self, txid: &[u8; 32]) -> (b: bool)
        requires
            self.wf(),
        ensures
            b == self@.note_positions.dom().contains(txid@),
    {
        self.locate(txid).1
    }

    /// The height recorded for the transaction `txid`, if it is tracked.
    pub fn tx_height(&self, txid: &[u8; 32]) -> (h: Option<u32>)
        requires
            self.wf(),
        ensures
            match h {
                Some(height) => self@.note_positions.dom().contains(txid@)
                    && self@.note_positions[txid@].tx_height == height,
                None => !self@.note_positions.dom().contains(txid@),
            },
    {
        let (i, found) = self.locate(txid);
        if found {
            Some(self.wallet_note_positions[i].notes.tx_height)
        } else {
            None
        }
    }

    /// The leaf position recorded for an output of the transaction `txid`.
    pub fn note_position(&self, txid: &[u8; 32], tx_output_idx: usize) -> (p: Option<u64>)
        requires
            self.wf(),
        ensures
            match p {
                Some(position) => self@.note_positions.dom().contains(txid@)
                    && self@.note_positions[txid@].note_positions.dom().contains(tx_output_idx)
                    && self@.note_positions[txid@].note_positions[tx_output_idx] == position,
                None => !(self@.note_positions.dom().contains(txid@)
                    && self@.note_positions[txid@].note_positions.dom().contains(tx_output_idx)),
            },
    {
        let (i, found) = self.locate(txid);
        if found {
            self.wallet_note_positions[i].notes.get(tx_output_idx)
        } else {
            None
        }
    }

    /// Stops tracking the transaction `txid`: its record, if there is one, is removed.
    pub fn clear_single_txid_postions(&mut self, txid: &[u8; 32]) -> (r: Result<(), WalletError>)
        requires
            old(self).wf(),
        ensures
            final(self).wf(),
            r.is_ok(),
            final(self)@ == old(self)@.untracking(txid@),
    {
        let (i, found) = self.locate(txid);
        if found {
            proof {
                lemma_records_distinct(self.wallet_note_positions@);
                lemma_assoc_remove(record_pairs(self.wallet_note_positions@), i as int);
            }
            self.wallet_note_positions.remove(i);
            proof {
                assert(record_pairs(self.wallet_note_positions@) =~= record_pairs(
                    old(self).wallet_note_positions@,
                ).remove(i as int));
                assert forall|a: int, b: int|
                    0 <= a < b < self.wallet_note_positions@.len() implies txid_rank(
                    self.wallet_note_positions@[a].txid@,
                ) < txid_rank(self.wallet_note_positions@[b].txid@) by {
                    let x = if a < i { a } else { a + 1 };
                    let y = if b < i { b } else { b + 1 };
                    assert(self.wallet_note_positions@[a] == old(self).wallet_note_positions@[x]);
                    assert(self.wallet_note_positions@[b] == old(self).wallet_note_positions@[y]);
                }
            }
        } else {
            assert(self@.note_positions =~= old(self)@.note_positions.remove(txid@));
        }
        Ok(())
    }

    /// Starts tracking the transaction `txid`, mined at `block_height`, with
    /// no position recorded; a record that it had is replaced.
    pub fn create_empty_txid_positions(&mut self, block_height: u32, txid: &[u8; 32]) -> (r: Result<
        (),
        WalletError,
    >)
        requires
            old(self).wf(),
        ensures
            final(self).wf(),
            r.is_ok(),
            final(self)@ == old(self)@.tracking(block_height, txid@),
    {
        let (i, found) = self.locate(txid);
        let record = TxRecord { txid: *txid, notes: NotePositions::new(block_height) };
        let ghost before = self.wallet_note_positions@;
        let ghost model = record.notes@;
        proof {
            lemma_records_distinct(before);
        }
        if found {
            proof {
                lemma_assoc_update(record_pairs(before), i as int, model);
            }
            self.wallet_note_positions.set(i, record);
            proof {
                assert(record_pairs(self.wallet_note_positions@) =~= record_pairs(before).update(
                    i as int,
                    (txid@, model),
                ));
                assert forall|a: int, b: int|
                    0 <= a < b < self.wallet_note_positions@.len() implies txid_rank(
                    self.wallet_note_positions@[a].txid@,
                ) < txid_rank(self.wallet_note_positions@[b].txid@) by {
                    assert(self.wallet_note_positions@[a].txid@ == before[a].txid@);
                    assert(self.wallet_note_positions@[b].txid@ == before[b].txid@);
                }
            }
        } else {
            proof {
                let pairs = record_pairs(before);
                assert forall|k: int| 0 <= k < pairs.len() implies (#[trigger] pairs[k]).0 != txid@ by {
                    if pairs[k].0 == txid@ {
                        lemma_assoc_at(pairs, k);
                    }
                }
                lemma_assoc_insert(pairs, i as int, txid@, model);
            }
            self.wallet_note_positions.insert(i, record);
            proof {
                assert(record_pairs(self.wallet_note_positions@) =~= record_pairs(before).insert(
                    i as int,
                    (txid@, model),
                ));
                assert forall|a: int, b: int|
                    0 <= a < b < self.wallet_note_positions@.len() implies txid_rank(
                    self.wallet_note_positions@[a].txid@,
                ) < txid_rank(self.wallet_note_positions@[b].txid@) by {
                    let x = if a < i { a } else { a - 1 };
                    let y = if b < i { b } else { b - 1 };
                    if a != i {
                        assert(self.wallet_note_positions@[a] == before[x]);
                    }
                    if b != i {
                        assert(self.wallet_note_positions@[b] == before[y]);
                    }
                }
                assert forall|a: int| 0 <= a < self.wallet_note_positions@.len() implies (
                #[trigger] self.wallet_note_positions@[a]).notes.wf() by {
                    let x = if a < i { a } else { a - 1 };
                    if a != i {
                        assert(self.wallet_note_positions@[a] == before[x]);
                    }
                }
            }
        }
        Ok(())
    }

    /// Appends the output commitments of one transaction, in order. The
    /// transaction must follow the last append: a later transaction of the
    /// same block, or a later block. All are appended or none.
    pub fn sapling_append_commitments(
        &mut self,
        block_height: u32,
        block_tx_idx: usize,
        commitments: &Vec<[u8; 32]>,
    ) -> (r: Result<(), WalletError>)
        requires
            old(self).wf(),
        ensures
            final(self).wf(),
            r == old(self)@.bundle_outcome(block_height, block_tx_idx, byte_seqs(commitments@)),
            r.is_ok() ==> final(self)@ == old(self)@.with_bundle(
                block_height,
                block_tx_idx,
                byte_seqs(commitments@),
            ),
            r.is_err() ==> final(self)@ == old(self)@,
    {
        if !in_order(&self.last_observed, block_height, block_tx_idx, None) {
            let last = self.last_observed.unwrap();
            return Err(WalletError::OutOfOrder(last, block_height, block_tx_idx, 0));
        }
        match self.commitment_tree.append_all(commitments) {
            Ok(()) => {},
            Err(FrontierError::InvalidCommitment) => {
                return Err(WalletError::InvalidCommitment);
            },
            Err(FrontierError::TreeFull) => {
                return Err(WalletError::NoteCommitmentTreeFull);
            },
        }
        self.last_observed = Some(
            LastObserved {
                block_height,
                block_tx_idx: Some(block_tx_idx),
                tx_output_idx: None,
            },
        );
        Ok(())
    }

    /// What the append of one output would return, the wallet left as it is:
    /// refused out of order; else refused for bytes that encode no
    /// commitment; else refused where the tree is full; else done.
    pub fn single_commitment_outcome(
        &self,
        block_height: u32,
        block_tx_idx: usize,
        tx_output_idx: usize,
        cmu: &[u8; 32],
    ) -> (r: Result<(), WalletError>)
        ensures
            r == self@.output_outcome(block_height, block_tx_idx, tx_output_idx, cmu@),
    {
        if !in_order(&self.last_observed, block_height, block_tx_idx, Some(tx_output_idx)) {
            let last = self.last_observed.unwrap();
            return Err(WalletError::OutOfOrder(last, block_height, block_tx_idx, tx_output_idx));
        }
        if !SaplingFrontier::is_commitment(cmu) {
            return Err(WalletError::InvalidCommitment);
        }
        if self.commitment_tree.size() >= MAX_LEAVES {
            return Err(WalletError::NoteCommitmentTreeFull);
        }
        Ok(())
    }

    /// Appends one output commitment as `sapling_append_single_commitment`
    /// does, for every output: `None`, with the wallet unchanged, where the
    /// append would be done but the output is the wallet's own and cannot be
    /// recorded, its transaction not being tracked or holding a position for
    /// this output already.
    pub fn sapling_append_single_commitment_checked(
        &mut self,
        block_height: u32,
        txid: &[u8; 32],
        block_tx_idx: usize,
        tx_output_idx: usize,
        cmu: &[u8; 32],
        is_mine: bool,
    ) -> (r: Option<Result<(), WalletError>>)
        requires
            old(self).wf(),
        ensures
            final(self).wf(),
            r.is_none() == (is_mine && old(self)@.output_outcome(
                block_height,
                block_tx_idx,
                tx_output_idx,
                cmu@,
            ).is_ok() && !old(self)@.can_record(txid@, tx_output_idx)),
            r.is_none() ==> final(self)@ == old(self)@,
            r.is_some() ==> r.unwrap() == old(self)@.output_outcome(
                block_height,
                block_tx_idx,
                tx_output_idx,
                cmu@,
            ),
            r.is_some() && r.unwrap().is_ok() ==> final(self)@ == old(self)@.with_output(
                block_height,
                txid@,
                block_tx_idx,
                tx_output_idx,
                cmu@,
                is_mine,
            ),
            r.is_some() && r.unwrap().is_err() ==> final(self)@ == old(self)@,
    {
        if is_mine && self.single_commitment_outcome(
            block_height,
            block_tx_idx,
            tx_output_idx,
            cmu,
        ).is_ok() {
            let recorded = self.note_position(txid, tx_output_idx);
            if !self.tracks(txid) || recorded.is_some() {
                return None;
            }
        }
        Some(
            self.sapling_append_single_commitment(
                block_height,
                txid,
                block_tx_idx,
                tx_output_idx,
                cmu,
                is_mine,
            ),
        )
    }

    /// Appends one output commitment. The output must follow the last
    /// append: a later output of the same transaction, a later transaction of
    /// the same block, or a later block. For an output of the wallet's own
    /// that is appended, its leaf is marked and its position recorded for the
    /// transaction, which must be tracked and hold no position for this
    /// output yet.
    pub fn sapling_append_single_commitment(
        &mut self,
        block_height: u32,
        txid: &[u8; 32],
        block_tx_idx: usize,
        tx_output_idx: usize,
        cmu: &[u8; 32],
        is_mine: bool,
    ) -> (r: Result<(), WalletError>)
        requires
            old(self).wf(),
            (is_mine && old(self)@.output_outcome(
                block_height,
                block_tx_idx,
                tx_output_idx,
                cmu@,
            ).is_ok()) ==> old(self)@.can_record(txid@, tx_output_idx),
        ensures
            final(self).wf(),
            r == old(self)@.output_outcome(block_height, block_tx_idx, tx_output_idx, cmu@),
            r.is_ok() ==> final(self)@ == old(self)@.with_output(
                block_height,
                txid@,
                block_tx_idx,
                tx_output_idx,
                cmu@,
                is_mine,
            ),
            r.is_err() ==> final(self)@ == old(self)@,
    {
        if !in_order(&self.last_observed, block_height, block_tx_idx, Some(tx_output_idx)) {
            let last = self.last_observed.unwrap();
            return Err(WalletError::OutOfOrder(last, block_height, block_tx_idx, tx_output_idx));
        }
        let position: u64 = self.commitment_tree.size();
        match self.commitment_tree.append(*cmu) {
            Ok(()) => {},
            Err(FrontierError::InvalidCommitment) => {
                return Err(WalletError::InvalidCommitment);
            },
            Err(FrontierError::TreeFull) => {
                return Err(WalletError::NoteCommitmentTreeFull);
            },
        }
        self.last_observed = Some(
            LastObserved {
                block_height,
                block_tx_idx: Some(block_tx_idx),
                tx_output_idx: Some(tx_output_idx),
            },
        );
        if is_mine {
            let marked = self.commitment_tree.mark();
            assert(marked == Some(position));
            let (i, found) = self.locate(txid);
            assert(found);
            let ghost before = self.wallet_note_positions@;
            proof {
                lemma_records_distinct(before);
            }
            let mut record = self.wallet_note_positions.remove(i);
            record.notes.insert(tx_output_idx, position);
            let ghost model = record.notes@;
            self.wallet_note_positions.insert(i, record);
            proof {
                lemma_assoc_update(record_pairs(before), i as int, model);
                assert(self.wallet_note_positions@ =~= before.update(
                    i as int,
                    self.wallet_note_positions@[i as int],
                ));
                assert(record_pairs(self.wallet_note_positions@) =~= record_pairs(before).update(
                    i as int,
                    (txid@, model),
                ));
                assert forall|a: int, b: int|
                    0 <= a < b < self.wallet_note_positions@.len() implies txid_rank(
                    self.wallet_note_positions@[a].txid@,
                ) < txid_rank(self.wallet_note_positions@[b].txid@) by {
                    assert(self.wallet_note_positions@[a].txid@ == before[a].txid@);
                    assert(self.wallet_note_positions@[b].txid@ == before[b].txid@);
                }
            }
        }
        Ok(())
    }

    /// Rewinds the tree to the checkpoint of `to_height`, one checkpoint per
    /// block, drops the records of the transactions mined above that height,
    /// and resets the cursor to it. At or above the last checkpoint nothing
    /// is done and the height of that checkpoint is returned. Where fewer
    /// checkpoints are held than blocks are to be undone, the rewind is
    /// refused, and nothing changes, if a marked position would remain;
    /// else it goes as far as the checkpoints reach.
    pub fn rewind(&mut self, to_height: u32) -> (r: Result<u32, RewindError>)
        requires
            old(self).wf(),
        ensures
            final(self).wf(),
            r == old(self)@.rewind_outcome(to_height),
            final(self)@ == old(self)@.rewound(to_height),
    {
        let checkpoint_height = match self.last_checkpoint {
            Some(h) => h,
            None => {
                if self.commitment_tree.marked_count() == 0 {
                    self.last_observed = Some(
                        LastObserved {
                            block_height: to_height,
                            block_tx_idx: None,
                            tx_output_idx: None,
                        },
                    );
                    return Ok(to_height);
                } else {
                    return Err(RewindError::InsufficientCheckpoints(0));
                }
            },
        };
        if to_height >= checkpoint_height {
            return Ok(checkpoint_height);
        }
        let blocks_to_rewind: u32 = checkpoint_height - to_height;
        let checkpoint_count: usize = self.commitment_tree.checkpoint_count();
        let enough = checkpoint_count >= blocks_to_rewind as usize;
        if !enough && self.commitment_tree.lasting_marked_count() > 0 {
            return Err(RewindError::InsufficientCheckpoints(checkpoint_count));
        }
        let steps: usize = if enough {
            blocks_to_rewind as usize
        } else {
            checkpoint_count
        };
        let ghost start = self@.tree;
        let mut i: usize = 0;
        while i < steps
            invariant
                i <= steps <= checkpoint_count,
                checkpoint_count == start.checkpoints.len(),
                self.commitment_tree.wf(),
                self.commitment_tree@ == start.rewound_by(i as nat),
                self.commitment_tree@.checkpoints.len() == checkpoint_count - i,
                self.wallet_note_positions == old(self).wallet_note_positions,
            decreases steps - i,
        {
            self.commitment_tree.rewind();
            i += 1;
        }
        proof {
            start.lemma_rewound_by(steps as nat);
            start.lemma_rewound_by(blocks_to_rewind as nat);
        }
        self.retain_up_to(to_height);
        self.last_observed = Some(
            LastObserved { block_height: to_height, block_tx_idx: None, tx_output_idx: None },
        );
        self.last_checkpoint = if checkpoint_count > blocks_to_rewind as usize {
            Some(to_height)
        } else {
            None
        };
        proof {
            let after = self@.tree.checkpoints;
            if checkpoint_count > blocks_to_rewind as usize {
                assert forall|k: int| 0 <= k < after.len() implies (#[trigger] after[k]).id + (
                after.len() - 1 - k) == to_height by {
                    assert(after[k] == start.checkpoints[k]);
                    assert(start.checkpoints[k].id + (checkpoint_count - 1 - k) == checkpoint_height);
                }
            }
        }
        Ok(to_height)
    }

    /// Drops the records of the transactions mined above `height`.
    fn retain_up_to(&mut self, height: u32)
        requires
            records_wf(old(self).wallet_note_positions@),
        ensures
            records_wf(final(self).wallet_note_positions@),
            final(self)@.note_positions == old(self)@.positions_up_to(height),
            final(self).commitment_tree == old(self).commitment_tree,
            final(self).last_checkpoint == old(self).last_checkpoint,
            final(self).last_observed == old(self).last_observed,
    {
        let ghost start = self@.note_positions;
        let mut i: usize = 0;
        while i < self.wallet_note_positions.len()
            invariant
                i <= self.wallet_note_positions@.len(),
                records_wf(self.wallet_note_positions@),
                self.commitment_tree == old(self).commitment_tree,
                self.last_checkpoint == old(self).last_checkpoint,
                self.last_observed == old(self).last_observed,
                start == old(self)@.note_positions,
                forall|k: Seq<u8>| #[trigger]
                    self@.note_positions.dom().contains(k) ==> start.dom().contains(k)
                        && self@.note_positions[k] == start[k],
                forall|k: Seq<u8>|
                    start.dom().contains(k) && start[k].tx_height <= height
                        ==> #[trigger] self@.note_positions.dom().contains(k),
                forall|j: int|
                    0 <= j < i ==> (#[trigger] self.wallet_note_positions@[j]).notes@.tx_height
                        <= height,
            decreases self.wallet_note_positions@.len() - i,
        {
            let ghost before = self.wallet_note_positions@;
            let ghost held = self@.note_positions;
            let ghost key = before[i as int].txid@;
            proof {
                lemma_records_distinct(before);
                lemma_assoc_at(record_pairs(before), i as int);
                assert(record_pairs(before)[i as int].0 == key);
                assert(held.dom().contains(key));
                assert(held[key] == before[i as int].notes@);
            }
            if self.wallet_note_positions[i].notes.tx_height > height {
                proof {
                    lemma_assoc_remove(record_pairs(before), i as int);
                }
                self.wallet_note_positions.remove(i);
                proof {
                    assert(record_pairs(self.wallet_note_positions@) =~= record_pairs(before).remove(
                        i as int,
                    ));
                    assert(self@.note_positions == held.remove(key));
                    assert(start[key].tx_height > height);
                    assert forall|k: Seq<u8>| #[trigger]
                        self@.note_positions.dom().contains(k) implies start.dom().contains(k)
                        && self@.note_positions[k] == start[k] by {
                        assert(held.dom().contains(k));
                    }
                    assert forall|k: Seq<u8>|
                        start.dom().contains(k) && start[k].tx_height
                            <= height implies #[trigger] self@.note_positions.dom().contains(k) by {
                        assert(held.dom().contains(k));
                        assert(k != key);
                    }
                    assert forall|a: int, b: int|
                        0 <= a < b < self.wallet_note_positions@.len() implies txid_rank(
                        self.wallet_note_positions@[a].txid@,
                    ) < txid_rank(self.wallet_note_positions@[b].txid@) by {
                        let x = if a < i { a } else { a + 1 };
                        let y = if b < i { b } else { b + 1 };
                        assert(self.wallet_note_positions@[a] == before[x]);
                        assert(self.wallet_note_positions@[b] == before[y]);
                    }
                    assert forall|a: int| 0 <= a < self.wallet_note_positions@.len() implies (
                    #[trigger] self.wallet_note_positions@[a]).notes.wf() by {
                        let x = if a < i { a } else { a + 1 };
                        assert(self.wallet_note_positions@[a] == before[x]);
                    }
                    assert forall|j: int| 0 <= j < i implies (
                    #[trigger] self.wallet_note_positions@[j]).notes@.tx_height <= height by {
                        assert(self.wallet_note_positions@[j] == before[j]);
                    }
                }
            } else {
                i += 1;
            }
        }
        proof {
            let records = self.wallet_note_positions@;
            let pairs = record_pairs(records);
            lemma_records_distinct(records);
            assert forall|k: Seq<u8>| self@.note_positions.dom().contains(k) implies start[k].tx_height
                <= height by {
                let j = choose|j: int| 0 <= j < pairs.len() && (#[trigger] pairs[j]).0 == k;
                lemma_assoc_at(pairs, j);
                assert(records[j].notes@.tx_height <= height);
            }
            assert(self@.note_positions =~= old(self)@.positions_up_to(height));
        }
    }
}

/// Lets the tree of the wallet go on from `frontier`, which the tree takes
/// over. Refused, with the wallet unchanged, where the tree holds a
/// checkpoint or a marked position.
pub fn sapling_wallet_init_from_frontier(wallet: &mut Wallet, frontier: SaplingFrontier) -> (r:
    Result<(), TreeInUse>)
    requires
        old(wallet).wf(),
    ensures
        final(wallet).wf(),
        r == old(wallet)@.init_outcome(),
        r.is_ok() ==> final(wallet)@ == (WalletModel {
            tree: TreeModel::from_frontier(frontier@, MAX_CHECKPOINTS as nat),
            ..old(wallet)@
        }),
        r.is_err() ==> final(wallet)@ == old(wallet)@,
{
    let checkpoints: usize = wallet.commitment_tree.checkpoint_count();
    let marked: usize = wallet.commitment_tree.marked_count();
    if checkpoints == 0 && marked == 0 {
        wallet.commitment_tree = CheckpointedTree::from_frontier(MAX_CHECKPOINTS, frontier);
        Ok(())
    } else {
        Err(TreeInUse { checkpoints, marked })
    }
}

impl SaplingFrontier {
    /// Makes a copy of this frontier the latest state of the wallet's tree,
    /// if that tree holds no checkpoint and no marked position.
    pub fn init_wallet(&self, wallet: &mut Wallet) -> (done: bool)
        requires
            old(wallet).wf(),
        ensures
            final(wallet).wf(),
            done == old(wallet)@.init_outcome().is_ok(),
            done ==> final(wallet)@ == (WalletModel {
                tree: TreeModel::from_frontier(self@, MAX_CHECKPOINTS as nat),
                ..old(wallet)@
            }),
            !done ==> final(wallet)@ == old(wallet)@,
    {
        sapling_wallet_init_from_frontier(wallet, self.snapshot()).is_ok()
    }
}

} // verus!
