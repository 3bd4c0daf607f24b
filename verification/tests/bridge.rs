use bridgetree::BridgeTree;
use note_tree::tree::CheckpointedTree;
use orchard::tree::MerkleHashOrchard;
use subtle::CtOption;

fn leaf_bytes(n: u32) -> [u8; 32] {
    let mut bytes = [0u8; 32];
    bytes[..4].copy_from_slice(&n.to_le_bytes());
    bytes[5] = 1;
    bytes
}

fn their_leaf(n: u32) -> MerkleHashOrchard {
    let found: CtOption<MerkleHashOrchard> = MerkleHashOrchard::from_bytes(&leaf_bytes(n));
    Option::from(found).unwrap()
}

/// Runs the same appends, marks, checkpoints and rewinds on the tree of the
/// bridgetree crate and on the library's tree, and holds what the two keep
/// count of against each other after every step.
fn run_both(max_checkpoints: usize, steps: u32, seed: u64) {
    let mut theirs: BridgeTree<MerkleHashOrchard, u32, 32> = BridgeTree::new(max_checkpoints);
    let mut ours = CheckpointedTree::new(max_checkpoints);
    let mut state = seed;
    let mut next_id = 5u32;
    for step in 0..steps {
        state = state.wrapping_mul(6364136223846793005).wrapping_add(1442695040888963407);
        match (state >> 33) % 10 {
            0..=3 => {
                assert_eq!(theirs.append(their_leaf(step)), ours.append(leaf_bytes(step)).is_ok());
            }
            4 | 5 => {
                assert_eq!(theirs.mark().map(u64::from), ours.mark());
            }
            6 | 7 => {
                // Mostly a rising tag, now and then one that does not rise.
                let id = if (state >> 40) % 5 == 0 { next_id.saturating_sub(2) } else { next_id };
                let taken = theirs.checkpoint(id);
                assert_eq!(taken, ours.checkpoint(id));
                if taken {
                    next_id = id + 1 + ((state >> 45) % 3) as u32;
                }
            }
            _ => {
                assert_eq!(theirs.rewind(), ours.rewind());
            }
        }
        assert_eq!(theirs.current_position().map(|p| u64::from(p) + 1).unwrap_or(0), ours.size());
        assert_eq!(theirs.checkpoints().len(), ours.checkpoint_count());
        assert_eq!(theirs.checkpoints().back().map(|c| *c.id()), ours.last_checkpoint_id());
        assert_eq!(theirs.marked_indices().len(), ours.marked_count());
        if step % 16 == 0 {
            // The deepest root that is there, and the first that is not.
            let held = ours.checkpoint_count();
            assert_eq!(theirs.root(held).is_some(), ours.root(held).is_some());
            assert_eq!(theirs.root(held + 1).is_some(), ours.root(held + 1).is_some());
            assert!(ours.root(held + 1).is_none());
            theirs.garbage_collect();
            ours.garbage_collect();
            assert_eq!(ours.retired_count(), 0);
            assert_eq!(theirs.checkpoints().len(), ours.checkpoint_count());
            assert_eq!(theirs.marked_indices().len(), ours.marked_count());
        }
    }
}

#[test]
fn the_tree_keeps_count_as_the_bridge_tree_does() {
    run_both(3, 120, 1);
    run_both(1, 80, 7);
}

#[test]
fn the_tree_keeps_count_as_the_bridge_tree_does_with_many_checkpoints() {
    run_both(100, 160, 99);
}
