//! The persisted state of a wallet: a version byte, the height of the last
//! checkpoint if there is one, the tree, and the position records.

use vstd::prelude::*;
use vstd::bytes::spec_u32_to_le_bytes;
use crate::assoc::assoc_map;
use crate::codec::{
    dec_u32, dec_u8, holds_at, lemma_dec_u32, lemma_holds_split, read_u32, read_u8, write_u32,
};
use crate::positions_codec::{
    dec_records, enc_records, lemma_dec_records, read_records, record_models, records_encodable,
    records_fit, write_records, RecordModel,
};
use crate::tree::{lemma_rising, CheckpointModel, CheckpointedTree, TreeModel};
use crate::tree_codec::{
    dec_tree, enc_tree, lemma_dec_tree, parts_of, tree_encodable, tree_encodable_sizes, TreeParts,
};
use crate::wallet::{
    checkpoints_follow, record_pairs, records_wf, txid_order, txid_rank, KeyOrder,
    NotePositionsModel, TxRecord, Wallet, MAX_CHECKPOINTS,
};

verus! {

/// The version of the persisted state that is written and read.
pub const NOTE_STATE_V1: u8 = 1;

/// Why a persisted state was not loaded.
#[derive(Clone, Copy, Debug, PartialEq, Eq, Structural)]
pub enum LoadError {
    /// The state starts with a version byte other than `NOTE_STATE_V1`.
    UnrecognizedSerializationVersion(u8),
    /// The bytes end too early, or do not hold a well-formed state.
    Malformed,
}

/// What is persisted of a wallet.
pub struct NoteState {
    pub last_checkpoint: Option<u32>,
    pub tree: TreeParts,
    pub records: Seq<RecordModel>,
}

/// The height of the last checkpoint as bytes: a byte 0 for none, else a
/// byte 1 and the height in four bytes.
pub open spec fn enc_height(height: Option<u32>) -> Seq<u8> {
    match height {
        None => seq![0u8],
        Some(h) => seq![1u8] + spec_u32_to_le_bytes(h),
    }
}

/// The height of the last checkpoint read at `p`.
pub open spec fn dec_height(b: Seq<u8>, p: int) -> Option<(Option<u32>, int)> {
    match dec_u8(b, p) {
        None => None,
        Some((flag, q)) => if flag == 0 {
            Some((None, q))
        } else if flag == 1 {
            match dec_u32(b, q) {
                None => None,
                Some((h, r)) => Some((Some(h), r)),
            }
        } else {
            None
        },
    }
}

/// What follows the version byte: the height, the tree and the records.
pub open spec fn enc_body(s: NoteState) -> Seq<u8> {
    enc_height(s.last_checkpoint) + enc_tree(s.tree) + enc_records(s.records)
}

/// A state as bytes.
pub open spec fn enc_state(s: NoteState) -> Seq<u8> {
    seq![NOTE_STATE_V1] + enc_body(s)
}

/// What follows the version byte, read at `p`.
pub open spec fn dec_body(b: Seq<u8>, p: int) -> Option<(NoteState, int)> {
    match dec_height(b, p) {
        None => None,
        Some((last_checkpoint, q)) => match dec_tree(b, q) {
            None => None,
            Some((tree, r)) => match dec_records(b, r) {
                None => None,
                Some((records, s)) => Some((NoteState { last_checkpoint, tree, records }, s)),
            },
        },
    }
}

/// The tree of a state, keeping as many checkpoints as a wallet keeps.
pub open spec fn tree_of(s: NoteState) -> TreeModel {
    TreeModel {
        frontier: s.tree.frontier,
        marks: s.tree.marks,
        checkpoints: s.tree.checkpoints,
        max_checkpoints: MAX_CHECKPOINTS as nat,
        retired: Seq::empty(),
    }
}

/// The records stand in the order of their transaction identifiers, each
/// transaction once, and the notes of each in the order of their indices.
pub open spec fn records_rising(records: Seq<RecordModel>) -> bool {
    &&& forall|i: int, j: int|
        0 <= i < j < records.len() ==> txid_rank(records[i].txid) < txid_rank(records[j].txid)
    &&& forall|i: int, a: int, b: int|
        0 <= i < records.len() && 0 <= a < b < records[i].notes.len() ==> (
        #[trigger] records[i].notes[a]).0 < (#[trigger] records[i].notes[b]).0
}

/// The map from transactions to their positions that the records stand for.
pub open spec fn records_map(records: Seq<RecordModel>) -> Map<Seq<u8>, NotePositionsModel> {
    assoc_map(
        Seq::new(
            records.len(),
            |i: int|
                (
                    records[i].txid,
                    NotePositionsModel {
                        tx_height: records[i].tx_height,
                        note_positions: assoc_map(records[i].notes),
                    },
                ),
        ),
    )
}

/// The state is that of a well-formed wallet.
pub open spec fn state_valid(s: NoteState) -> bool {
    &&& tree_of(s).wf()
    &&& tree_of(s).bounded()
    &&& checkpoints_follow(tree_of(s), s.last_checkpoint)
    &&& records_rising(s.records)
}

/// The state can be written: no list is too long, and no index too large.
pub open spec fn state_encodable(s: NoteState) -> bool {
    tree_encodable_sizes(s.tree) && records_encodable(s.records)
}

/// What the loading of a byte string gives: the state that it holds, or why
/// it holds none.
pub open spec fn load_outcome(b: Seq<u8>) -> Result<NoteState, LoadError> {
    match dec_u8(b, 0) {
        None => Err(LoadError::Malformed),
        Some((version, q)) => if version != NOTE_STATE_V1 {
            Err(LoadError::UnrecognizedSerializationVersion(version))
        } else {
            match dec_body(b, q) {
                None => Err(LoadError::Malformed),
                Some((s, _)) => if state_valid(s) {
                    Ok(s)
                } else {
                    Err(LoadError::Malformed)
                },
            }
        },
    }
}

/// The bytes of a valid state that could be written load as that state.
pub proof fn lemma_load_written(s: NoteState)
    requires
        state_valid(s),
        tree_encodable(s.tree),
        records_encodable(s.records),
    ensures
        load_outcome(enc_state(s)) == Ok::<NoteState, LoadError>(s),
{
    let b = enc_state(s);
    let height = enc_height(s.last_checkpoint);
    let after_height = 1 + height.len() as int;
    assert(b.subrange(0, b.len() as int) =~= b);
    lemma_holds_split(b, 0, seq![NOTE_STATE_V1], enc_body(s));
    assert(b[0] == NOTE_STATE_V1);
    lemma_holds_split(b, 1, height + enc_tree(s.tree), enc_records(s.records));
    lemma_holds_split(b, 1, height, enc_tree(s.tree));
    assert(b[1] == b.subrange(1, after_height)[0]);
    match s.last_checkpoint {
        None => {},
        Some(h) => {
            lemma_holds_split(b, 1, seq![1u8], spec_u32_to_le_bytes(h));
            lemma_dec_u32(b, 2, h);
        },
    }
    assert(dec_height(b, 1) == Some((s.last_checkpoint, after_height)));
    lemma_dec_tree(b, after_height, s.tree);
    lemma_dec_records(b, after_height + enc_tree(s.tree).len(), s.records);
}

impl Wallet {
    /// What is persisted of the wallet: its last checkpoint, the frontier,
    /// marks and checkpoints in reach of its tree, and its records. The
    /// cursor, the retired checkpoints and the number of checkpoints kept
    /// are not persisted.
    pub open(crate) spec fn persisted(&self) -> NoteState {
        NoteState {
            last_checkpoint: self.last_checkpoint,
            tree: parts_of(self.commitment_tree@),
            records: record_models(self.wallet_note_positions@),
        }
    }

    /// What is persisted of a wallet is its last checkpoint, its tree, and
    /// its records in the order of the transaction identifiers.
    pub proof fn lemma_persisted(&self)
        requires
            self.wf(),
        ensures
            self.persisted().last_checkpoint == self@.last_checkpoint,
            self.persisted().tree == parts_of(self@.tree),
            records_map(self.persisted().records) == self@.note_positions,
            state_valid(self.persisted()),
    {
        let records = self.wallet_note_positions@;
        let models = record_models(records);
        assert(record_pairs(records) =~= Seq::new(
            models.len(),
            |i: int|
                (
                    models[i].txid,
                    NotePositionsModel {
                        tx_height: models[i].tx_height,
                        note_positions: assoc_map(models[i].notes),
                    },
                ),
        ));
        let held = self@.tree;
        let written = tree_of(self.persisted());
        assert(written == (TreeModel { retired: Seq::empty(), ..held }));
        lemma_records_rising(records);
    }
}

/// Records as they are held are well formed where they stand in order.
pub(crate) proof fn lemma_records_rising(records: Seq<TxRecord>)
    ensures
        records_wf(records) == records_rising(record_models(records)),
{
    let models = record_models(records);
    if records_wf(records) {
        assert forall|i: int, a: int, b: int|
            0 <= i < models.len() && 0 <= a < b < models[i].notes.len() implies (
        #[trigger] models[i].notes[a]).0 < (#[trigger] models[i].notes[b]).0 by {
            assert(records[i].notes.wf());
        }
        assert(records_rising(models));
    }
    if records_rising(models) {
        assert forall|i: int, j: int| 0 <= i < j < records.len() implies txid_rank(
            records[i].txid@,
        ) < txid_rank(records[j].txid@) by {
            assert(models[i].txid == records[i].txid@);
            assert(models[j].txid == records[j].txid@);
        }
        assert forall|i: int| 0 <= i < records.len() implies (#[trigger] records[i]).notes.wf() by {
            assert forall|a: int, b: int|
                0 <= a < b < records[i].notes.note_positions@.len() implies records[i].notes.note_positions@[a].0
                < records[i].notes.note_positions@[b].0 by {
                assert(models[i].notes[a].0 < models[i].notes[b].0);
            }
        }
        assert(records_wf(records));
    }
}

/// In a sequence in which each element is one above the one before, each
/// element is as far below the last as it stands before it.
proof fn lemma_in_line(ids: Seq<int>, i: int)
    requires
        forall|a: int, b: int| 0 <= a && b == a + 1 && b < ids.len() ==> ids[a] + 1 == ids[b],
        0 <= i < ids.len(),
    ensures
        ids[i] + (ids.len() - 1 - i) == ids[ids.len() - 1],
    decreases ids.len() - i,
{
    if i + 1 < ids.len() {
        lemma_in_line(ids, i + 1);
        assert(ids[i] + 1 == ids[i + 1]);
    }
}

/// Whether the tags of the tree's checkpoints are the consecutive heights
/// that end at `last_checkpoint`.
fn checkpoints_in_line(tree: &CheckpointedTree, last_checkpoint: Option<u32>) -> (b: bool)
    ensures
        b == checkpoints_follow(tree@, last_checkpoint),
{
    let n: usize = tree.checkpoints.len();
    let ghost held = tree@.checkpoints;
    let height = match last_checkpoint {
        None => {
            return n == 0;
        },
        Some(h) => h,
    };
    if n == 0 {
        return false;
    }
    assert(held[n - 1] == tree.checkpoints@[n - 1]@);
    if tree.checkpoints[n - 1].id != height {
        assert(held[n - 1].id + (n - 1 - (n - 1)) != height);
        return false;
    }
    let mut i: usize = 1;
    while i < n
        invariant
            1 <= i <= n,
            n == tree.checkpoints@.len(),
            held == tree@.checkpoints,
            held[n - 1].id == height,
            forall|a: int, b: int| 0 <= a && b == a + 1 && b < i ==> held[a].id + 1 == held[b].id,
        decreases n - i,
    {
        assert(held[i - 1] == tree.checkpoints@[i - 1]@);
        assert(held[i as int] == tree.checkpoints@[i as int]@);
        let below: u32 = tree.checkpoints[i - 1].id;
        let above: u32 = tree.checkpoints[i].id;
        if above <= below || above - below != 1 {
            proof {
                if checkpoints_follow(tree@, last_checkpoint) {
                    assert(held[i - 1].id + (n - 1 - (i - 1)) == height);
                    assert(held[i as int].id + (n - 1 - i) == height);
                }
            }
            return false;
        }
        i += 1;
    }
    proof {
        let ids = Seq::new(held.len(), |k: int| held[k].id as int);
        assert forall|k: int| 0 <= k < held.len() implies (#[trigger] held[k]).id + (held.len() - 1
            - k) == height by {
            lemma_in_line(ids, k);
        }
    }
    true
}

/// Whether the notes stand in the order of their indices, each index once.
fn notes_in_order(notes: &Vec<(usize, u64)>) -> (b: bool)
    ensures
        b == (forall|i: int, j: int| 0 <= i < j < notes@.len() ==> notes@[i].0 < notes@[j].0),
{
    let n: usize = notes.len();
    let mut i: usize = 1;
    while i < n
        invariant
            1 <= i,
            n == notes@.len(),
            forall|a: int, b: int| 0 <= a && b == a + 1 && b < i ==> notes@[a].0 < notes@[b].0,
        decreases n - i,
    {
        if notes[i - 1].0 >= notes[i].0 {
            assert(!(notes@[i - 1].0 < notes@[i as int].0));
            return false;
        }
        i += 1;
    }
    proof {
        let keys = Seq::new(notes@.len(), |k: int| notes@[k].0 as int);
        assert forall|a: int, b: int| 0 <= a < b < notes@.len() implies notes@[a].0 < notes@[b].0 by {
            lemma_rising(keys, a, b);
        }
    }
    true
}

/// Whether the records stand in the order of their transaction identifiers,
/// each transaction once, and the notes of each in order.
fn records_in_order(records: &Vec<TxRecord>) -> (b: bool)
    ensures
        b == records_wf(records@),
{
    let n: usize = records.len();
    let mut i: usize = 0;
    while i < n
        invariant
            i <= n,
            n == records@.len(),
            forall|a: int, b: int|
                0 <= a && b == a + 1 && b < i ==> txid_rank(records@[a].txid@) < txid_rank(
                    records@[b].txid@,
                ),
            forall|a: int| 0 <= a < i ==> (#[trigger] records@[a]).notes.wf(),
        decreases n - i,
    {
        if !notes_in_order(&records[i].notes.note_positions) {
            assert(!records@[i as int].notes.wf());
            return false;
        }
        if i > 0 {
            match txid_order(&records[i - 1].txid, &records[i].txid) {
                KeyOrder::Below => {},
                _ => {
                    assert(!(txid_rank(records@[i - 1].txid@) < txid_rank(records@[i as int].txid@)));
                    return false;
                },
            }
        }
        i += 1;
    }
    proof {
        let ranks = Seq::new(records@.len(), |k: int| txid_rank(records@[k].txid@) as int);
        assert forall|a: int, b: int| 0 <= a < b < records@.len() implies txid_rank(
            records@[a].txid@,
        ) < txid_rank(records@[b].txid@) by {
            lemma_rising(ranks, a, b);
        }
    }
    true
}

/// The persisted state of the wallet, `None` where it cannot be written
/// because a list is too long or an output index too large. Loading the
/// bytes gives back what is persisted of the wallet.
pub fn sapling_wallet_write_note_commitment_tree(wallet: &Wallet) -> (r: Option<Vec<u8>>)
    requires
        wallet.wf(),
    ensures
        match r {
            Some(out) => out@ == enc_state(wallet.persisted()) && load_outcome(out@) == Ok::<
                NoteState,
                LoadError,
            >(wallet.persisted()),
            None => !state_encodable(wallet.persisted()),
        },
{
    let ghost s = wallet.persisted();
    let mut out: Vec<u8> = Vec::new();
    out.push(NOTE_STATE_V1);
    match wallet.last_checkpoint {
        None => {
            out.push(0u8);
        },
        Some(h) => {
            out.push(1u8);
            write_u32(&mut out, h);
        },
    }
    assert(out@ =~= seq![NOTE_STATE_V1] + enc_height(s.last_checkpoint));
    if !wallet.commitment_tree.write(&mut out) {
        return None;
    }
    if !records_fit(&wallet.wallet_note_positions) {
        return None;
    }
    write_records(&mut out, &wallet.wallet_note_positions);
    proof {
        assert(out@ =~= enc_state(s));
        wallet.lemma_persisted();
        lemma_load_written(s);
    }
    Some(out)
}

/// Loads a persisted state into the wallet: its last checkpoint, its tree and
/// its records are replaced, its cursor stays. Where the bytes hold no state
/// of a well-formed wallet, or one of another version, the wallet stays as
/// it is.
pub fn sapling_wallet_load_note_commitment_tree(wallet: &mut Wallet, bytes: &[u8]) -> (r: Result<
    (),
    LoadError,
>)
    ensures
        match load_outcome(bytes@) {
            Ok(s) => {
                &&& r.is_ok()
                &&& final(wallet).wf()
                &&& final(wallet).persisted() == s
                &&& final(wallet)@.tree.retired == Seq::<CheckpointModel>::empty()
                &&& final(wallet)@.last_observed == old(wallet)@.last_observed
            },
            Err(e) => r == Err::<(), LoadError>(e) && *final(wallet) == *old(wallet),
        },
{
    let (version, after_version) = match read_u8(bytes, 0) {
        Some(v) => v,
        None => {
            return Err(LoadError::Malformed);
        },
    };
    if version != NOTE_STATE_V1 {
        return Err(LoadError::UnrecognizedSerializationVersion(version));
    }
    let (flag, after_flag) = match read_u8(bytes, after_version) {
        Some(v) => v,
        None => {
            return Err(LoadError::Malformed);
        },
    };
    let (last_checkpoint, after_height) = if flag == 0 {
        (None, after_flag)
    } else if flag == 1 {
        match read_u32(bytes, after_flag) {
            Some((h, q)) => (Some(h), q),
            None => {
                return Err(LoadError::Malformed);
            },
        }
    } else {
        return Err(LoadError::Malformed);
    };
    assert(dec_height(bytes@, 1) == Some((last_checkpoint, after_height as int)));
    let (tree, after_tree) = match CheckpointedTree::read(bytes, after_height, MAX_CHECKPOINTS) {
        Some(v) => v,
        None => {
            return Err(LoadError::Malformed);
        },
    };
    let (records, after) = match read_records(bytes, after_tree) {
        Some(v) => v,
        None => {
            return Err(LoadError::Malformed);
        },
    };
    proof {
        lemma_records_rising(records@);
    }
    if !checkpoints_in_line(&tree, last_checkpoint) || !records_in_order(&records) {
        return Err(LoadError::Malformed);
    }
    wallet.last_checkpoint = last_checkpoint;
    wallet.commitment_tree = tree;
    wallet.wallet_note_positions = records;
    Ok(())
}

} // verus!
