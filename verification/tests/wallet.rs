use note_tree::note_state::{
    sapling_wallet_load_note_commitment_tree, sapling_wallet_write_note_commitment_tree, LoadError,
};
use note_tree::sapling_frontier::{parse_sapling, SaplingFrontier};
use note_tree::wallet::{
    sapling_wallet_init_from_frontier, txid_order, KeyOrder, LastObserved, RewindError, TreeInUse,
    Wallet, WalletError, MAX_CHECKPOINTS,
};

fn cm(n: u8) -> [u8; 32] {
    let mut bytes = [0u8; 32];
    bytes[0] = n;
    bytes[1] = 9;
    bytes
}

fn txid(n: u8) -> [u8; 32] {
    let mut bytes = [0u8; 32];
    bytes[0] = n;
    bytes
}

fn frontier_of(leaves: &[[u8; 32]]) -> SaplingFrontier {
    let mut f = SaplingFrontier::empty();
    for l in leaves {
        f.append(*l).unwrap();
    }
    f
}

fn cursor(w: &Wallet) -> (u32, Option<usize>, Option<usize>) {
    let c: LastObserved = w.last_observed().unwrap();
    (c.block_height, c.block_tx_idx, c.tx_output_idx)
}

#[test]
fn an_empty_wallet_has_observed_nothing() {
    let w = Wallet::empty();
    assert_eq!(w.tree_size(), 0);
    assert_eq!(w.last_checkpoint(), None);
    assert!(w.last_observed().is_none());
    assert_eq!(w.checkpoint_count(), 0);
    assert_eq!(w.marked_count(), 0);
    assert_eq!(w.note_commitment_tree_root(0), Some(SaplingFrontier::empty().root()));
    assert_eq!(w.note_commitment_tree_root(1), None);
    assert_eq!(MAX_CHECKPOINTS, 100);
}

#[test]
fn checkpoints_are_taken_block_by_block() {
    let mut w = Wallet::empty();
    assert!(w.checkpoint(500));
    assert_eq!(w.last_checkpoint(), Some(500));
    assert!(!w.checkpoint(500));
    assert!(!w.checkpoint(502));
    assert!(!w.checkpoint(499));
    assert_eq!(w.last_checkpoint(), Some(500));
    assert_eq!(w.checkpoint_count(), 1);
    assert!(w.checkpoint(501));
    assert_eq!(w.last_checkpoint(), Some(501));
    assert_eq!(w.checkpoint_count(), 2);
}

#[test]
fn no_checkpoint_follows_the_greatest_height() {
    let mut w = Wallet::empty();
    assert!(w.checkpoint(u32::MAX));
    assert!(!w.checkpoint(0));
    assert!(!w.checkpoint(u32::MAX));
    assert_eq!(w.last_checkpoint(), Some(u32::MAX));
}

#[test]
fn checkpoint_then_rewind_keeps_root_and_size() {
    let mut w = Wallet::empty();
    w.sapling_append_commitments(10, 0, &vec![cm(1), cm(2), cm(3)]).unwrap();
    let root = w.note_commitment_tree_root(0);
    let size = w.tree_size();
    assert!(w.checkpoint(10));
    assert_eq!(w.rewind(10).unwrap(), 10);
    assert_eq!(w.note_commitment_tree_root(0), root);
    assert_eq!(w.tree_size(), size);
    assert_eq!(w.last_checkpoint(), Some(10));
    assert_eq!(cursor(&w), (10, Some(0), None));
}

#[test]
fn rewind_at_or_above_the_last_checkpoint_does_nothing() {
    let mut w = Wallet::empty();
    w.sapling_append_commitments(10, 0, &vec![cm(1)]).unwrap();
    assert!(w.checkpoint(10));
    w.sapling_append_commitments(11, 0, &vec![cm(2)]).unwrap();
    let root = w.note_commitment_tree_root(0);
    assert_eq!(w.rewind(10).unwrap(), 10);
    assert_eq!(w.rewind(11).unwrap(), 10);
    assert_eq!(w.rewind(u32::MAX).unwrap(), 10);
    assert_eq!(w.tree_size(), 2);
    assert_eq!(w.note_commitment_tree_root(0), root);
    assert_eq!(w.checkpoint_count(), 1);
    assert_eq!(cursor(&w), (11, Some(0), None));
}

#[test]
fn rewind_without_marks_or_checkpoints_resets_the_cursor() {
    let mut w = Wallet::empty();
    assert_eq!(w.rewind(7).unwrap(), 7);
    assert_eq!(cursor(&w), (7, None, None));
    w.sapling_append_commitments(8, 3, &vec![cm(1)]).unwrap();
    let root = w.note_commitment_tree_root(0);
    assert_eq!(w.rewind(2).unwrap(), 2);
    assert_eq!(cursor(&w), (2, None, None));
    assert_eq!(w.tree_size(), 1);
    assert_eq!(w.note_commitment_tree_root(0), root);
    assert_eq!(w.last_checkpoint(), None);
    // The next append must belong to a later block.
    assert!(w.sapling_append_commitments(2, 0, &vec![cm(2)]).is_err());
    assert!(w.sapling_append_commitments(3, 0, &vec![cm(2)]).is_ok());
}

#[test]
fn rewind_with_a_mark_and_no_checkpoint_is_refused() {
    let mut w = Wallet::empty();
    w.create_empty_txid_positions(5, &txid(1)).unwrap();
    w.sapling_append_single_commitment(5, &txid(1), 0, 0, &cm(1), true).unwrap();
    assert_eq!(w.marked_count(), 1);
    let e = w.rewind(3).unwrap_err();
    assert!(matches!(e, RewindError::InsufficientCheckpoints(0)));
    assert_eq!(w.marked_count(), 1);
    assert_eq!(w.tree_size(), 1);
    assert_eq!(cursor(&w), (5, Some(0), Some(0)));
    assert_eq!(w.note_position(&txid(1), 0), Some(0));
}

#[test]
fn rewind_beyond_the_checkpoints_is_refused_while_a_mark_would_stay() {
    let mut w = Wallet::empty();
    w.create_empty_txid_positions(5, &txid(1)).unwrap();
    w.sapling_append_single_commitment(5, &txid(1), 0, 0, &cm(1), true).unwrap();
    assert!(w.checkpoint(5));
    w.sapling_append_commitments(6, 0, &vec![cm(2)]).unwrap();
    assert!(w.checkpoint(6));
    w.sapling_append_commitments(7, 0, &vec![cm(3)]).unwrap();
    let root = w.note_commitment_tree_root(0);
    // Three blocks back with two checkpoints.
    let e = w.rewind(3).unwrap_err();
    assert!(matches!(e, RewindError::InsufficientCheckpoints(2)));
    assert_eq!(w.tree_size(), 3);
    assert_eq!(w.marked_count(), 1);
    assert_eq!(w.checkpoint_count(), 2);
    assert_eq!(w.last_checkpoint(), Some(6));
    assert_eq!(w.note_commitment_tree_root(0), root);
    assert_eq!(cursor(&w), (7, Some(0), None));
    assert!(w.tracks(&txid(1)));
    // Two blocks back is as far as the checkpoints reach.
    assert_eq!(w.rewind(4).unwrap(), 4);
    assert_eq!(w.tree_size(), 1);
    assert_eq!(w.marked_count(), 1);
    assert_eq!(w.last_checkpoint(), None);
    assert!(!w.tracks(&txid(1)));
}

#[test]
fn rewind_beyond_the_checkpoints_goes_on_where_no_mark_would_stay() {
    let mut w = Wallet::empty();
    w.sapling_append_commitments(5, 0, &vec![cm(1)]).unwrap();
    assert!(w.checkpoint(5));
    w.create_empty_txid_positions(6, &txid(1)).unwrap();
    w.sapling_append_single_commitment(6, &txid(1), 0, 0, &cm(2), true).unwrap();
    assert_eq!(w.marked_count(), 1);
    // The only mark was made after the only checkpoint.
    assert_eq!(w.rewind(1).unwrap(), 1);
    assert_eq!(w.marked_count(), 0);
    assert_eq!(w.tree_size(), 1);
    assert_eq!(w.checkpoint_count(), 0);
    assert_eq!(w.last_checkpoint(), None);
    assert_eq!(cursor(&w), (1, None, None));
    assert!(!w.tracks(&txid(1)));
}

#[test]
fn rewind_restores_the_tree_of_the_checkpoint() {
    let mut w = Wallet::empty();
    w.create_empty_txid_positions(10, &txid(1)).unwrap();
    w.sapling_append_single_commitment(10, &txid(1), 0, 0, &cm(1), true).unwrap();
    assert!(w.checkpoint(10));
    let root10 = w.note_commitment_tree_root(0).unwrap();
    w.create_empty_txid_positions(11, &txid(2)).unwrap();
    w.sapling_append_single_commitment(11, &txid(2), 0, 0, &cm(2), true).unwrap();
    assert!(w.checkpoint(11));
    let root11 = w.note_commitment_tree_root(0).unwrap();
    w.create_empty_txid_positions(12, &txid(3)).unwrap();
    w.sapling_append_single_commitment(12, &txid(3), 0, 0, &cm(3), false).unwrap();
    assert!(w.checkpoint(12));
    let root12 = w.note_commitment_tree_root(0).unwrap();
    assert_ne!(root10, root11);
    assert_ne!(root11, root12);
    assert_eq!(w.note_commitment_tree_root(1), Some(root12));
    assert_eq!(w.note_commitment_tree_root(2), Some(root11));
    assert_eq!(w.note_commitment_tree_root(3), Some(root10));
    assert_eq!(w.note_commitment_tree_root(4), None);
    assert_eq!(w.marked_count(), 2);

    assert_eq!(w.rewind(10).unwrap(), 10);
    assert_eq!(w.tree_size(), 2);
    assert_eq!(w.note_commitment_tree_root(0), Some(root11));
    assert_eq!(w.last_checkpoint(), Some(10));
    assert_eq!(w.checkpoint_count(), 1);
    assert_eq!(w.note_commitment_tree_root(1), Some(root10));
    assert_eq!(cursor(&w), (10, None, None));
    // Records of the transactions above the height are dropped.
    assert!(w.tracks(&txid(1)));
    assert!(!w.tracks(&txid(2)));
    assert!(!w.tracks(&txid(3)));
    assert_eq!(w.marked_count(), 2);
    assert_eq!(w.frontier_root_matches(), ());
}

trait RootCheck {
    fn frontier_root_matches(&self);
}

impl RootCheck for Wallet {
    fn frontier_root_matches(&self) {
        let leaves: Vec<[u8; 32]> = (1..=self.tree_size() as u8).map(cm).collect();
        assert_eq!(self.note_commitment_tree_root(0), Some(frontier_of(&leaves).root()));
    }
}

#[test]
fn appends_must_follow_the_cursor() {
    let mut w = Wallet::empty();
    w.sapling_append_single_commitment(10, &txid(1), 2, 1, &cm(1), false).unwrap();
    assert_eq!(cursor(&w), (10, Some(2), Some(1)));
    let size = w.tree_size();
    let root = w.note_commitment_tree_root(0);
    // The same output again, and an earlier one.
    for out in [1usize, 0] {
        let e = w.sapling_append_single_commitment(10, &txid(1), 2, out, &cm(2), false).unwrap_err();
        match e {
            WalletError::OutOfOrder(last, height, tx, output) => {
                assert_eq!(last.block_height, 10);
                assert_eq!(last.block_tx_idx, Some(2));
                assert_eq!(last.tx_output_idx, Some(1));
                assert_eq!((height, tx, output), (10, 2, out));
            }
            _ => panic!("out of order expected"),
        }
        assert_eq!(w.tree_size(), size);
        assert_eq!(w.note_commitment_tree_root(0), root);
        assert_eq!(cursor(&w), (10, Some(2), Some(1)));
    }
    // An earlier transaction, an earlier block.
    assert!(w.sapling_append_single_commitment(10, &txid(1), 1, 5, &cm(2), false).is_err());
    assert!(w.sapling_append_single_commitment(9, &txid(1), 3, 5, &cm(2), false).is_err());
    assert_eq!(w.tree_size(), size);
    // A later output, a later transaction, a later block.
    w.sapling_append_single_commitment(10, &txid(1), 2, 2, &cm(2), false).unwrap();
    w.sapling_append_single_commitment(10, &txid(1), 3, 0, &cm(3), false).unwrap();
    w.sapling_append_single_commitment(11, &txid(1), 0, 0, &cm(4), false).unwrap();
    assert_eq!(w.tree_size(), 4);
    w.frontier_root_matches();
}

#[test]
fn an_own_output_offered_again_is_out_of_order() {
    let mut w = Wallet::empty();
    w.create_empty_txid_positions(10, &txid(1)).unwrap();
    w.sapling_append_single_commitment(10, &txid(1), 2, 1, &cm(1), true).unwrap();
    assert_eq!(w.note_position(&txid(1), 1), Some(0));
    let root = w.note_commitment_tree_root(0);
    // The same own output again, at the coordinates of the cursor.
    let outcome = w.single_commitment_outcome(10, 2, 1, &cm(2));
    assert!(matches!(outcome, Err(WalletError::OutOfOrder(_, 10, 2, 1))));
    let r = w.sapling_append_single_commitment(10, &txid(1), 2, 1, &cm(2), true);
    match r {
        Err(WalletError::OutOfOrder(last, 10, 2, 1)) => {
            assert_eq!(last.block_height, 10);
            assert_eq!(last.block_tx_idx, Some(2));
            assert_eq!(last.tx_output_idx, Some(1));
        }
        _ => panic!("out of order expected"),
    }
    let checked = w.sapling_append_single_commitment_checked(10, &txid(1), 2, 1, &cm(2), true);
    assert!(matches!(checked, Some(Err(WalletError::OutOfOrder(_, 10, 2, 1)))));
    // An own output of a transaction that is not tracked, out of order.
    let r = w.sapling_append_single_commitment(10, &txid(9), 2, 0, &cm(2), true);
    assert!(matches!(r, Err(WalletError::OutOfOrder(_, 10, 2, 0))));
    assert_eq!(w.tree_size(), 1);
    assert_eq!(w.marked_count(), 1);
    assert_eq!(w.note_commitment_tree_root(0), root);
    assert_eq!(cursor(&w), (10, Some(2), Some(1)));
    assert_eq!(w.note_position(&txid(1), 1), Some(0));
    assert!(!w.tracks(&txid(9)));
}

#[test]
fn an_own_output_of_an_earlier_block_after_a_rewind_is_out_of_order() {
    let mut w = Wallet::empty();
    assert!(w.checkpoint(4));
    w.create_empty_txid_positions(4, &txid(1)).unwrap();
    w.sapling_append_single_commitment(4, &txid(1), 0, 0, &cm(1), true).unwrap();
    assert!(w.checkpoint(5));
    w.sapling_append_commitments(5, 0, &vec![cm(2)]).unwrap();
    assert!(w.checkpoint(6));
    w.sapling_append_commitments(6, 0, &vec![cm(3)]).unwrap();
    assert_eq!(w.rewind(5).unwrap(), 5);
    assert_eq!(cursor(&w), (5, None, None));
    // The record of the transaction of block 4 stays.
    assert_eq!(w.note_position(&txid(1), 0), Some(0));
    let size = w.tree_size();
    let r = w.sapling_append_single_commitment(4, &txid(1), 0, 0, &cm(9), true);
    match r {
        Err(WalletError::OutOfOrder(last, 4, 0, 0)) => {
            assert_eq!(last.block_height, 5);
            assert_eq!(last.block_tx_idx, None);
            assert_eq!(last.tx_output_idx, None);
        }
        _ => panic!("out of order expected"),
    }
    // The height of the rewind itself is not later either; a later block is.
    assert!(w.sapling_append_single_commitment(5, &txid(1), 7, 7, &cm(9), false).is_err());
    assert_eq!(w.tree_size(), size);
    assert_eq!(w.note_position(&txid(1), 0), Some(0));
    assert!(w.sapling_append_single_commitment(6, &txid(1), 0, 0, &cm(9), false).is_ok());
    assert_eq!(w.tree_size(), size + 1);
}

#[test]
fn an_own_output_that_cannot_be_recorded_is_not_appended() {
    let mut w = Wallet::empty();
    // Not tracked.
    assert!(w.single_commitment_outcome(1, 0, 0, &cm(1)).is_ok());
    assert!(w.sapling_append_single_commitment_checked(1, &txid(1), 0, 0, &cm(1), true).is_none());
    assert_eq!(w.tree_size(), 0);
    assert!(w.last_observed().is_none());
    // Bytes that are no commitment are refused as such, tracked or not.
    let r = w.sapling_append_single_commitment_checked(1, &txid(1), 0, 0, &[0xff; 32], true);
    assert!(matches!(r, Some(Err(WalletError::InvalidCommitment))));
    let r = w.sapling_append_single_commitment(1, &txid(1), 0, 0, &[0xff; 32], true);
    assert!(matches!(r, Err(WalletError::InvalidCommitment)));
    assert!(matches!(
        w.single_commitment_outcome(1, 0, 0, &[0xff; 32]),
        Err(WalletError::InvalidCommitment)
    ));
    // Tracked: appended, marked and recorded.
    w.create_empty_txid_positions(1, &txid(1)).unwrap();
    let r = w.sapling_append_single_commitment_checked(1, &txid(1), 0, 0, &cm(1), true);
    assert!(matches!(r, Some(Ok(()))));
    assert_eq!(w.note_position(&txid(1), 0), Some(0));
    assert_eq!(w.marked_count(), 1);
    // Recorded already, in a later block.
    assert!(w.sapling_append_single_commitment_checked(2, &txid(1), 0, 0, &cm(2), true).is_none());
    assert_eq!(w.tree_size(), 1);
    assert_eq!(cursor(&w), (1, Some(0), Some(0)));
    // Not the wallet's own: appended without a record.
    let r = w.sapling_append_single_commitment_checked(2, &txid(1), 0, 0, &cm(2), false);
    assert!(matches!(r, Some(Ok(()))));
    assert_eq!(w.tree_size(), 2);
    assert_eq!(w.note_position(&txid(1), 0), Some(0));
}

#[test]
fn output_two_before_output_one_is_out_of_order() {
    let mut w = Wallet::empty();
    w.sapling_append_single_commitment(1, &txid(1), 0, 2, &cm(1), false).unwrap();
    let before = w.tree_size();
    let r = w.sapling_append_single_commitment(1, &txid(1), 0, 1, &cm(2), false);
    assert!(matches!(r, Err(WalletError::OutOfOrder(_, 1, 0, 1))));
    assert_eq!(w.tree_size(), before);
}

#[test]
fn bundles_must_follow_the_cursor() {
    let mut w = Wallet::empty();
    w.sapling_append_commitments(10, 1, &vec![cm(1), cm(2)]).unwrap();
    assert_eq!(cursor(&w), (10, Some(1), None));
    assert_eq!(w.tree_size(), 2);
    let e = w.sapling_append_commitments(10, 1, &vec![cm(3)]).unwrap_err();
    assert!(matches!(e, WalletError::OutOfOrder(_, 10, 1, 0)));
    assert!(w.sapling_append_commitments(10, 0, &vec![cm(3)]).is_err());
    assert!(w.sapling_append_commitments(9, 5, &vec![cm(3)]).is_err());
    assert_eq!(w.tree_size(), 2);
    // A single output of the same transaction does not follow a bundle of it.
    assert!(w.sapling_append_single_commitment(10, &txid(1), 1, 7, &cm(3), false).is_err());
    w.sapling_append_commitments(10, 2, &vec![cm(3)]).unwrap();
    w.sapling_append_commitments(11, 0, &Vec::new()).unwrap();
    assert_eq!(cursor(&w), (11, Some(0), None));
    assert_eq!(w.tree_size(), 3);
    w.frontier_root_matches();
}

#[test]
fn bytes_that_are_no_commitment_are_refused() {
    let mut w = Wallet::empty();
    w.sapling_append_commitments(1, 0, &vec![cm(1)]).unwrap();
    let root = w.note_commitment_tree_root(0);
    let e = w.sapling_append_commitments(2, 0, &vec![cm(2), [0xff; 32]]).unwrap_err();
    assert!(matches!(e, WalletError::InvalidCommitment));
    let e = w.sapling_append_single_commitment(2, &txid(1), 0, 0, &[0xff; 32], false).unwrap_err();
    assert!(matches!(e, WalletError::InvalidCommitment));
    assert_eq!(w.tree_size(), 1);
    assert_eq!(w.note_commitment_tree_root(0), root);
    assert_eq!(cursor(&w), (1, Some(0), None));
}

#[test]
fn a_full_tree_refuses_every_leaf() {
    // A frontier of 2^32 leaves: a right leaf with 32 ommers.
    let mut bytes = vec![1u8];
    bytes.extend_from_slice(&0xffff_ffffu64.to_le_bytes());
    bytes.extend_from_slice(&cm(1));
    bytes.push(1);
    bytes.extend_from_slice(&cm(0));
    bytes.push(31);
    for n in 2..=32u8 {
        bytes.extend_from_slice(&cm(n));
    }
    let full = parse_sapling(&bytes).unwrap();
    let mut w = Wallet::empty();
    assert!(full.init_wallet(&mut w));
    assert_eq!(w.tree_size(), 1u64 << 32);
    let root = w.note_commitment_tree_root(0);
    let e = w.sapling_append_single_commitment(1, &txid(1), 0, 0, &cm(9), false).unwrap_err();
    assert!(matches!(e, WalletError::NoteCommitmentTreeFull));
    let e = w.sapling_append_commitments(1, 0, &vec![cm(9)]).unwrap_err();
    assert!(matches!(e, WalletError::NoteCommitmentTreeFull));
    // An own output, tracked or not, recorded or not, finds the tree full.
    let e = w.sapling_append_single_commitment(1, &txid(1), 0, 0, &cm(9), true).unwrap_err();
    assert!(matches!(e, WalletError::NoteCommitmentTreeFull));
    w.create_empty_txid_positions(1, &txid(1)).unwrap();
    let e = w.sapling_append_single_commitment(1, &txid(1), 0, 0, &cm(9), true).unwrap_err();
    assert!(matches!(e, WalletError::NoteCommitmentTreeFull));
    assert!(matches!(
        w.single_commitment_outcome(1, 0, 0, &cm(9)),
        Err(WalletError::NoteCommitmentTreeFull)
    ));
    let r = w.sapling_append_single_commitment_checked(1, &txid(2), 0, 0, &cm(9), true);
    assert!(matches!(r, Some(Err(WalletError::NoteCommitmentTreeFull))));
    w.clear_single_txid_postions(&txid(1)).unwrap();
    assert_eq!(w.marked_count(), 0);
    assert_eq!(w.tree_size(), 1u64 << 32);
    assert_eq!(w.note_commitment_tree_root(0), root);
    assert!(w.last_observed().is_none());
    // Bytes that are no commitment are refused before the size is looked at.
    let e = w.sapling_append_commitments(1, 0, &vec![[0xff; 32]]).unwrap_err();
    assert!(matches!(e, WalletError::InvalidCommitment));
    // No leaf is also no leaf too many.
    assert!(w.sapling_append_commitments(1, 0, &Vec::new()).is_ok());
}

#[test]
fn own_outputs_are_marked_and_recorded() {
    let mut w = Wallet::empty();
    assert!(!w.tracks(&txid(7)));
    assert_eq!(w.tx_height(&txid(7)), None);
    w.create_empty_txid_positions(20, &txid(7)).unwrap();
    assert!(w.tracks(&txid(7)));
    assert_eq!(w.tx_height(&txid(7)), Some(20));
    assert_eq!(w.note_position(&txid(7), 0), None);
    w.sapling_append_single_commitment(20, &txid(7), 0, 0, &cm(1), false).unwrap();
    assert_eq!(w.marked_count(), 0);
    w.sapling_append_single_commitment(20, &txid(7), 0, 1, &cm(2), true).unwrap();
    w.sapling_append_single_commitment(20, &txid(7), 0, 4, &cm(3), true).unwrap();
    assert_eq!(w.marked_count(), 2);
    assert_eq!(w.note_position(&txid(7), 0), None);
    assert_eq!(w.note_position(&txid(7), 1), Some(1));
    assert_eq!(w.note_position(&txid(7), 4), Some(2));
    assert_eq!(w.note_position(&txid(8), 1), None);
    // Tracking anew replaces the record.
    w.create_empty_txid_positions(21, &txid(7)).unwrap();
    assert_eq!(w.tx_height(&txid(7)), Some(21));
    assert_eq!(w.note_position(&txid(7), 1), None);
    w.clear_single_txid_postions(&txid(7)).unwrap();
    assert!(!w.tracks(&txid(7)));
    w.clear_single_txid_postions(&txid(7)).unwrap();
    assert!(!w.tracks(&txid(7)));
    assert_eq!(w.marked_count(), 2);
}

#[test]
fn records_are_kept_by_transaction() {
    let mut w = Wallet::empty();
    for n in [5u8, 1, 9, 3] {
        w.create_empty_txid_positions(u32::from(n), &txid(n)).unwrap();
    }
    for n in [1u8, 3, 5, 9] {
        assert_eq!(w.tx_height(&txid(n)), Some(u32::from(n)));
    }
    assert_eq!(w.tx_height(&txid(2)), None);
    w.clear_single_txid_postions(&txid(5)).unwrap();
    assert_eq!(w.tx_height(&txid(5)), None);
    assert_eq!(w.tx_height(&txid(9)), Some(9));
    assert_eq!(w.rewind(3).unwrap(), 3);
    // Without a checkpoint a rewind only resets the cursor.
    assert_eq!(w.tx_height(&txid(9)), Some(9));
}

#[test]
fn transaction_identifiers_are_ordered_from_the_first_byte() {
    let mut a = [0u8; 32];
    let mut b = [0u8; 32];
    assert_eq!(txid_order(&a, &b), KeyOrder::Same);
    a[31] = 1;
    assert_eq!(txid_order(&a, &b), KeyOrder::Above);
    assert_eq!(txid_order(&b, &a), KeyOrder::Below);
    b[0] = 1;
    assert_eq!(txid_order(&a, &b), KeyOrder::Below);
    a[0] = 2;
    assert_eq!(txid_order(&a, &b), KeyOrder::Above);
}

#[test]
fn only_the_newest_checkpoints_are_kept() {
    let mut w = Wallet::empty();
    w.create_empty_txid_positions(0, &txid(1)).unwrap();
    for h in 0..150u32 {
        w.sapling_append_single_commitment(h, &txid(1), 0, 0, &cm((h % 200) as u8), h == 120)
            .unwrap();
        assert!(w.checkpoint(h));
    }
    assert_eq!(w.checkpoint_count(), 100);
    assert_eq!(w.last_checkpoint(), Some(149));
    // The fifty oldest checkpoints are out of reach; their records are held
    // until they are collected.
    assert_eq!(w.retired_checkpoint_count(), 50);
    let root = w.note_commitment_tree_root(0);
    let oldest = w.note_commitment_tree_root(100);
    w.garbage_collect();
    assert_eq!(w.retired_checkpoint_count(), 0);
    assert_eq!(w.checkpoint_count(), 100);
    assert_eq!(w.last_checkpoint(), Some(149));
    assert_eq!(w.marked_count(), 1);
    assert_eq!(w.tree_size(), 150);
    assert_eq!(w.note_commitment_tree_root(0), root);
    assert_eq!(w.note_commitment_tree_root(100), oldest);
    assert_eq!(cursor(&w), (149, Some(0), Some(0)));
    assert!(w.tracks(&txid(1)));
    w.garbage_collect();
    assert_eq!(w.retired_checkpoint_count(), 0);
    assert!(w.note_commitment_tree_root(100).is_some());
    assert!(w.note_commitment_tree_root(101).is_none());
    // The mark was made after the oldest checkpoint that is kept: a rewind
    // as far as the checkpoints reach and beyond undoes it.
    assert_eq!(w.rewind(10).unwrap(), 10);
    assert_eq!(w.checkpoint_count(), 0);
    assert_eq!(w.marked_count(), 0);
    assert_eq!(w.tree_size(), 51);
    assert_eq!(w.last_checkpoint(), None);
}

#[test]
fn retired_checkpoints_are_neither_reached_nor_written() {
    let mut w = Wallet::empty();
    for h in 0..103u32 {
        w.sapling_append_commitments(h, 0, &vec![cm(h as u8)]).unwrap();
        assert!(w.checkpoint(h));
    }
    assert_eq!(w.checkpoint_count(), 100);
    assert_eq!(w.retired_checkpoint_count(), 3);
    let bytes = sapling_wallet_write_note_commitment_tree(&w).unwrap();
    let mut collected = Wallet::empty();
    sapling_wallet_load_note_commitment_tree(&mut collected, &bytes).unwrap();
    assert_eq!(collected.retired_checkpoint_count(), 0);
    assert_eq!(collected.checkpoint_count(), 100);
    w.garbage_collect();
    assert_eq!(w.retired_checkpoint_count(), 0);
    assert_eq!(sapling_wallet_write_note_commitment_tree(&w).unwrap(), bytes);
    // A rewind goes no further than the checkpoints in reach.
    assert_eq!(w.rewind(0).unwrap(), 0);
    assert_eq!(w.checkpoint_count(), 0);
    assert_eq!(w.tree_size(), 4);
    assert_eq!(w.retired_checkpoint_count(), 0);
    // A reset and a new start from a frontier hold no retired checkpoint either.
    let mut r = Wallet::empty();
    assert_eq!(r.retired_checkpoint_count(), 0);
    for h in 0..101u32 {
        assert!(r.checkpoint(h));
    }
    assert_eq!(r.retired_checkpoint_count(), 1);
    r.reset();
    assert_eq!(r.retired_checkpoint_count(), 0);
}

#[test]
fn a_rewind_by_all_checkpoints_leaves_none() {
    let mut w = Wallet::empty();
    for h in 1..=3u32 {
        w.sapling_append_commitments(h, 0, &vec![cm(h as u8)]).unwrap();
        assert!(w.checkpoint(h));
    }
    assert_eq!(w.rewind(0).unwrap(), 0);
    assert_eq!(w.last_checkpoint(), None);
    assert_eq!(w.checkpoint_count(), 0);
    assert_eq!(w.tree_size(), 1);
    let mut v = Wallet::empty();
    for h in 1..=3u32 {
        v.sapling_append_commitments(h, 0, &vec![cm(h as u8)]).unwrap();
        assert!(v.checkpoint(h));
    }
    assert_eq!(v.rewind(1).unwrap(), 1);
    assert_eq!(v.last_checkpoint(), Some(1));
    assert_eq!(v.checkpoint_count(), 1);
    assert_eq!(v.tree_size(), 2);
    assert!(v.checkpoint(2));
}

#[test]
fn a_tree_starts_from_a_frontier_only_without_history() {
    let f = frontier_of(&[cm(1), cm(2), cm(3)]);
    let mut w = Wallet::empty();
    assert_eq!(sapling_wallet_init_from_frontier(&mut w, f.snapshot()), Ok(()));
    assert_eq!(w.tree_size(), 3);
    assert_eq!(w.note_commitment_tree_root(0), Some(f.root()));
    w.sapling_append_commitments(1, 0, &vec![cm(4)]).unwrap();
    assert_eq!(w.tree_size(), 4);
    w.frontier_root_matches();
    assert!(f.init_wallet(&mut w));
    assert_eq!(w.tree_size(), 3);
    assert!(w.checkpoint(1));
    assert!(!SaplingFrontier::empty().init_wallet(&mut w));
    assert_eq!(
        sapling_wallet_init_from_frontier(&mut w, SaplingFrontier::empty()),
        Err(TreeInUse { checkpoints: 1, marked: 0 })
    );
    assert_eq!(w.tree_size(), 3);
    let mut marked = Wallet::empty();
    marked.create_empty_txid_positions(1, &txid(1)).unwrap();
    marked.sapling_append_single_commitment(1, &txid(1), 0, 0, &cm(1), true).unwrap();
    assert_eq!(
        sapling_wallet_init_from_frontier(&mut marked, f),
        Err(TreeInUse { checkpoints: 0, marked: 1 })
    );
    assert_eq!(marked.tree_size(), 1);
}

#[test]
fn reset_forgets_everything() {
    let mut w = Wallet::empty();
    w.create_empty_txid_positions(1, &txid(1)).unwrap();
    w.sapling_append_single_commitment(1, &txid(1), 0, 0, &cm(1), true).unwrap();
    assert!(w.checkpoint(1));
    w.reset();
    assert_eq!(w.tree_size(), 0);
    assert_eq!(w.marked_count(), 0);
    assert_eq!(w.checkpoint_count(), 0);
    assert_eq!(w.last_checkpoint(), None);
    assert!(w.last_observed().is_none());
    assert!(!w.tracks(&txid(1)));
}

#[test]
fn the_state_of_an_empty_wallet() {
    let w = Wallet::empty();
    let bytes = sapling_wallet_write_note_commitment_tree(&w).unwrap();
    // Version, no checkpoint, a frontier of one byte, no mark, no checkpoint, no record.
    assert_eq!(bytes, vec![1u8, 0, 1, 0, 0, 0, 0]);
}

#[test]
fn the_state_of_a_wallet_with_a_record() {
    let mut w = Wallet::empty();
    w.create_empty_txid_positions(0x01020304, &txid(5)).unwrap();
    w.sapling_append_single_commitment(0x01020304, &txid(5), 0, 3, &cm(1), true).unwrap();
    assert!(w.checkpoint(0x01020304));
    let bytes = sapling_wallet_write_note_commitment_tree(&w).unwrap();
    let frontier = frontier_of(&[cm(1)]).serialize();
    let mut expected = vec![1u8, 1, 4, 3, 2, 1];
    // The tree: frontier, one mark at position 0, one checkpoint.
    expected.push(frontier.len() as u8);
    expected.extend_from_slice(&frontier);
    expected.push(1);
    expected.extend_from_slice(&0u64.to_le_bytes());
    expected.push(1);
    expected.extend_from_slice(&[4, 3, 2, 1]);
    expected.push(frontier.len() as u8);
    expected.extend_from_slice(&frontier);
    expected.extend_from_slice(&1u64.to_le_bytes());
    // The records: one transaction with one note.
    expected.push(1);
    expected.extend_from_slice(&txid(5));
    expected.extend_from_slice(&[4, 3, 2, 1]);
    expected.push(1);
    expected.extend_from_slice(&[3, 0, 0, 0]);
    expected.extend_from_slice(&0u64.to_le_bytes());
    assert_eq!(bytes, expected);
}

fn busy_wallet() -> Wallet {
    let mut w = Wallet::empty();
    for h in 1..=4u32 {
        let id = txid(10 - h as u8);
        w.create_empty_txid_positions(h, &id).unwrap();
        w.sapling_append_single_commitment(h, &id, 0, 0, &cm(2 * h as u8), h % 2 == 0).unwrap();
        w.sapling_append_single_commitment(h, &id, 0, 1, &cm(2 * h as u8 + 1), true).unwrap();
        assert!(w.checkpoint(h));
    }
    w
}

#[test]
fn a_written_state_loads_as_the_same_wallet() {
    let w = busy_wallet();
    let bytes = sapling_wallet_write_note_commitment_tree(&w).unwrap();
    let mut v = Wallet::empty();
    v.sapling_append_commitments(77, 1, &vec![cm(1)]).unwrap();
    sapling_wallet_load_note_commitment_tree(&mut v, &bytes).unwrap();
    assert_eq!(v.tree_size(), w.tree_size());
    assert_eq!(v.marked_count(), w.marked_count());
    assert_eq!(v.checkpoint_count(), w.checkpoint_count());
    assert_eq!(v.last_checkpoint(), w.last_checkpoint());
    for depth in 0..6 {
        assert_eq!(v.note_commitment_tree_root(depth), w.note_commitment_tree_root(depth));
    }
    for h in 1..=4u8 {
        assert_eq!(v.tx_height(&txid(10 - h)), Some(u32::from(h)));
        assert_eq!(v.note_position(&txid(10 - h), 0), w.note_position(&txid(10 - h), 0));
        assert_eq!(v.note_position(&txid(10 - h), 1), Some(2 * u64::from(h) - 1));
    }
    assert_eq!(v.retired_checkpoint_count(), 0);
    // The cursor is not part of the state.
    assert_eq!(cursor(&v), (77, Some(1), None));
    assert_eq!(sapling_wallet_write_note_commitment_tree(&v).unwrap(), bytes);
    // The loaded wallet goes on as the written one would.
    let mut w = w;
    assert_eq!(v.rewind(2).unwrap(), 2);
    assert_eq!(w.rewind(2).unwrap(), 2);
    // Two checkpoints back: the tree as the checkpoint of block 3 found it.
    assert_eq!(v.tree_size(), 6);
    assert_eq!(w.tree_size(), 6);
    assert_eq!(v.note_commitment_tree_root(0), w.note_commitment_tree_root(0));
    assert_eq!(v.marked_count(), w.marked_count());
    assert!(v.checkpoint(3));
}

#[test]
fn a_state_of_another_version_is_not_loaded() {
    let w = busy_wallet();
    let mut bytes = sapling_wallet_write_note_commitment_tree(&w).unwrap();
    bytes[0] = 2;
    let mut v = Wallet::empty();
    assert_eq!(
        sapling_wallet_load_note_commitment_tree(&mut v, &bytes),
        Err(LoadError::UnrecognizedSerializationVersion(2))
    );
    assert_eq!(
        sapling_wallet_load_note_commitment_tree(&mut v, &[0]),
        Err(LoadError::UnrecognizedSerializationVersion(0))
    );
    assert_eq!(v.tree_size(), 0);
    assert_eq!(v.last_checkpoint(), None);
}

#[test]
fn bytes_that_hold_no_state_are_not_loaded() {
    let w = busy_wallet();
    let bytes = sapling_wallet_write_note_commitment_tree(&w).unwrap();
    let mut v = Wallet::empty();
    assert_eq!(sapling_wallet_load_note_commitment_tree(&mut v, &[]), Err(LoadError::Malformed));
    assert_eq!(sapling_wallet_load_note_commitment_tree(&mut v, &[1]), Err(LoadError::Malformed));
    assert_eq!(sapling_wallet_load_note_commitment_tree(&mut v, &[1, 2]), Err(LoadError::Malformed));
    for cut in [1usize, 2, 10, bytes.len() / 2, bytes.len() - 1] {
        assert_eq!(
            sapling_wallet_load_note_commitment_tree(&mut v, &bytes[..cut]),
            Err(LoadError::Malformed)
        );
    }
    // The last checkpoint must be that of the tree.
    let mut other = bytes.clone();
    other[2] ^= 1;
    assert_eq!(sapling_wallet_load_note_commitment_tree(&mut v, &other), Err(LoadError::Malformed));
    assert_eq!(v.tree_size(), 0);
    assert_eq!(v.checkpoint_count(), 0);
    // What follows the state is not read.
    let mut longer = bytes.clone();
    longer.extend_from_slice(&[9, 9, 9]);
    assert!(sapling_wallet_load_note_commitment_tree(&mut v, &longer).is_ok());
    assert_eq!(v.tree_size(), w.tree_size());
}

#[test]
fn records_out_of_order_are_not_loaded() {
    // Two records whose identifiers fall, in an otherwise empty state.
    let mut bytes = vec![1u8, 0, 1, 0, 0, 0, 2];
    bytes.extend_from_slice(&txid(2));
    bytes.extend_from_slice(&[0, 0, 0, 0, 0]);
    bytes.extend_from_slice(&txid(1));
    bytes.extend_from_slice(&[0, 0, 0, 0, 0]);
    let mut v = Wallet::empty();
    assert_eq!(sapling_wallet_load_note_commitment_tree(&mut v, &bytes), Err(LoadError::Malformed));
    let mut sorted = vec![1u8, 0, 1, 0, 0, 0, 2];
    sorted.extend_from_slice(&txid(1));
    sorted.extend_from_slice(&[7, 0, 0, 0, 0]);
    sorted.extend_from_slice(&txid(2));
    sorted.extend_from_slice(&[8, 0, 0, 0, 0]);
    assert!(sapling_wallet_load_note_commitment_tree(&mut v, &sorted).is_ok());
    assert_eq!(v.tx_height(&txid(1)), Some(7));
    assert_eq!(v.tx_height(&txid(2)), Some(8));
}
