//! What holds of every frontier and every wallet, stated over their models.

use vstd::prelude::*;
use crate::frontier::{
    completes_subtree, lemma_leaves_to_boundary, AppendResult, FrontierModel,
    TRACKED_SUBTREE_LEAVES,
};
use crate::sapling_frontier::{
    lemma_sapling_appended_all_size, sapling_appended_all, sapling_reports, sapling_tracked_root,
};
use crate::wallet::{cursor_at, LastObserved, RewindError, WalletError, WalletModel};

verus! {

/// Of the first 2^16 leaves appended to an empty frontier, the last one alone
/// is reported as closing a subtree, and the root reported with it is that of
/// the subtree of all of them.
pub proof fn law_first_boundary(leaves: Seq<Seq<u8>>, k: int, report: AppendResult)
    requires
        leaves.len() == TRACKED_SUBTREE_LEAVES,
        1 <= k <= leaves.len(),
        sapling_reports(
            report,
            sapling_appended_all(FrontierModel { size: 0, nodes: Seq::empty() }, leaves.take(k)),
        ),
    ensures
        report.has_subtree_boundary == (k == leaves.len()),
        k == leaves.len() ==> report.completed_subtree_root@ == sapling_tracked_root(
            sapling_appended_all(FrontierModel { size: 0, nodes: Seq::empty() }, leaves),
        ),
{
    let start = FrontierModel { size: 0, nodes: Seq::empty() };
    lemma_sapling_appended_all_size(start, leaves.take(k));
    lemma_leaves_to_boundary(0);
    assert(completes_subtree(k as nat) == (k == TRACKED_SUBTREE_LEAVES));
    assert(leaves.take(leaves.len() as int) =~= leaves);
}

/// A checkpoint that is taken and then at once rewound to leaves the wallet
/// as the checkpoint left it: the tree has the leaves and the root that it
/// had before the checkpoint.
pub proof fn law_checkpoint_then_rewind(w: WalletModel, height: u32)
    requires
        w.wf(),
        w.accepts_checkpoint(height),
    ensures
        w.checkpointed(height).rewind_outcome(height) == Ok::<u32, RewindError>(height),
        w.checkpointed(height).rewound(height) == w.checkpointed(height),
        w.checkpointed(height).rewound(height).tree.frontier == w.tree.frontier,
        w.checkpointed(height).rewound(height).tree.root_at(0) == w.tree.root_at(0),
{
}

/// A rewind to the height of the last checkpoint or above changes nothing
/// and returns the height of that checkpoint.
pub proof fn law_rewind_at_or_above_checkpoint(w: WalletModel, height: u32)
    requires
        w.last_checkpoint.is_some(),
        height >= w.last_checkpoint.unwrap(),
    ensures
        w.rewind_outcome(height) == Ok::<u32, RewindError>(w.last_checkpoint.unwrap()),
        w.rewound(height) == w,
{
}

/// A wallet without a mark and without a checkpoint can be rewound to any
/// height: only its cursor changes, to that height.
pub proof fn law_rewind_without_history(w: WalletModel, height: u32)
    requires
        w.wf(),
        w.tree.marks.len() == 0,
        w.tree.checkpoints.len() == 0,
    ensures
        w.rewind_outcome(height) == Ok::<u32, RewindError>(height),
        w.rewound(height) == (WalletModel { last_observed: Some(cursor_at(height)), ..w }),
{
}

/// A rewind that needs more checkpoints than are held, in a wallet with a
/// position marked before its oldest checkpoint, is refused with the number
/// of checkpoints held, and the wallet stays as it is, the position marked.
pub proof fn law_rewind_refused(w: WalletModel, height: u32)
    requires
        w.wf(),
        w.tree.lasting_marks().len() > 0,
        w.last_checkpoint.is_some() ==> height < w.last_checkpoint.unwrap()
            && w.tree.checkpoints.len() < w.last_checkpoint.unwrap() - height,
    ensures
        w.rewind_outcome(height) == Err::<u32, RewindError>(
            RewindError::InsufficientCheckpoints(w.tree.checkpoints.len() as usize),
        ),
        w.rewound(height) == w,
        w.rewound(height).tree.marks.len() > 0,
{
}

/// An output offered at or before the output last appended, in the same
/// transaction of the same block, is refused as out of order.
pub proof fn law_earlier_output_refused(
    w: WalletModel,
    height: u32,
    tx_idx: usize,
    last_output: usize,
    output_idx: usize,
    leaf: Seq<u8>,
)
    requires
        w.last_observed == Some(
            LastObserved {
                block_height: height,
                block_tx_idx: Some(tx_idx),
                tx_output_idx: Some(last_output),
            },
        ),
        output_idx <= last_output,
    ensures
        w.output_outcome(height, tx_idx, output_idx, leaf) == Err::<(), WalletError>(
            WalletError::OutOfOrder(w.last_observed.unwrap(), height, tx_idx, output_idx),
        ),
{
}

} // verus!
