//! The persisted form of the checkpointed tree: its frontier, its marked
//! positions and its checkpoints.

use vstd::prelude::*;
use vstd::bytes::{spec_u32_to_le_bytes, spec_u64_to_le_bytes};
use vstd::slice::slice_subrange;
use crate::codec::{
    dec_bytes, dec_compact, dec_u32, dec_u64, holds_at, lemma_dec_compact, lemma_dec_u32,
    lemma_dec_u64, lemma_holds_split, read_compact, read_u32, read_u64, write_compact, write_u32,
    write_u64, MAX_COMPACT_SIZE,
};
use crate::frontier::{compact_size, frontier_encoding, FrontierModel, MAX_LEAVES};
use crate::sapling_frontier::{sapling_parse_of, SaplingFrontier};
use crate::tree::{checkpoint_views, Checkpoint, CheckpointModel, CheckpointedTree, TreeModel};

verus! {

/// A frontier as bytes: the length of its current encoding in compact form,
/// then that encoding.
pub open spec fn enc_frontier(m: FrontierModel) -> Seq<u8> {
    compact_size(frontier_encoding(m).len()) + frontier_encoding(m)
}

/// The frontier can be written, and its encoding is read as the same frontier.
pub open spec fn frontier_encodable(m: FrontierModel) -> bool {
    frontier_encoding(m).len() <= MAX_COMPACT_SIZE && sapling_parse_of(frontier_encoding(m))
        == Some(m)
}

/// A frontier read at `p`.
pub open spec fn dec_frontier(b: Seq<u8>, p: int) -> Option<(FrontierModel, int)> {
    match dec_compact(b, p) {
        None => None,
        Some((n, q)) => match dec_bytes(b, q, n) {
            None => None,
            Some((blob, r)) => match sapling_parse_of(blob) {
                None => None,
                Some(m) => Some((m, r)),
            },
        },
    }
}

/// Reading a frontier where it was written gives it back.
pub proof fn lemma_dec_frontier(b: Seq<u8>, p: int, m: FrontierModel)
    requires
        holds_at(b, p, enc_frontier(m)),
        frontier_encodable(m),
    ensures
        dec_frontier(b, p) == Some((m, p + enc_frontier(m).len())),
{
    let blob = frontier_encoding(m);
    lemma_holds_split(b, p, compact_size(blob.len()), blob);
    lemma_dec_compact(b, p, blob.len());
}

/// The marked positions one after the other, eight bytes each.
pub open spec fn enc_mark_items(marks: Seq<u64>) -> Seq<u8>
    decreases marks.len(),
{
    if marks.len() == 0 {
        Seq::empty()
    } else {
        enc_mark_items(marks.drop_last()) + spec_u64_to_le_bytes(marks.last())
    }
}

/// The list of marked positions: its length in compact form, then the positions.
pub open spec fn enc_marks(marks: Seq<u64>) -> Seq<u8> {
    compact_size(marks.len()) + enc_mark_items(marks)
}

/// `n` marked positions read from `p` on.
pub open spec fn dec_mark_items(b: Seq<u8>, p: int, n: nat) -> Option<(Seq<u64>, int)>
    decreases n,
{
    if n == 0 {
        Some((Seq::empty(), p))
    } else {
        match dec_mark_items(b, p, (n - 1) as nat) {
            None => None,
            Some((marks, q)) => match dec_u64(b, q) {
                None => None,
                Some((mark, r)) => Some((marks.push(mark), r)),
            },
        }
    }
}

/// The list of marked positions read at `p`.
pub open spec fn dec_marks(b: Seq<u8>, p: int) -> Option<(Seq<u64>, int)> {
    match dec_compact(b, p) {
        None => None,
        Some((n, q)) => dec_mark_items(b, q, n),
    }
}

/// Once the reading of marked positions has failed, it fails for every longer list.
pub proof fn lemma_dec_mark_items_fails(b: Seq<u8>, p: int, i: nat, n: nat)
    requires
        i <= n,
        dec_mark_items(b, p, i).is_none(),
    ensures
        dec_mark_items(b, p, n).is_none(),
    decreases n,
{
    if i < n {
        lemma_dec_mark_items_fails(b, p, i, (n - 1) as nat);
    }
}

/// Reading marked positions where they were written gives them back.
pub proof fn lemma_dec_mark_items(b: Seq<u8>, p: int, marks: Seq<u64>)
    requires
        holds_at(b, p, enc_mark_items(marks)),
    ensures
        dec_mark_items(b, p, marks.len()) == Some((marks, p + enc_mark_items(marks).len())),
    decreases marks.len(),
{
    if marks.len() > 0 {
        let front = marks.drop_last();
        lemma_holds_split(b, p, enc_mark_items(front), spec_u64_to_le_bytes(marks.last()));
        lemma_dec_mark_items(b, p, front);
        lemma_dec_u64(b, p + enc_mark_items(front).len(), marks.last());
        assert(front.push(marks.last()) =~= marks);
    }
}

/// Reading the list of marked positions where it was written gives it back.
pub proof fn lemma_dec_marks(b: Seq<u8>, p: int, marks: Seq<u64>)
    requires
        holds_at(b, p, enc_marks(marks)),
        marks.len() <= MAX_COMPACT_SIZE,
    ensures
        dec_marks(b, p) == Some((marks, p + enc_marks(marks).len())),
{
    lemma_holds_split(b, p, compact_size(marks.len()), enc_mark_items(marks));
    lemma_dec_compact(b, p, marks.len());
    lemma_dec_mark_items(b, p + compact_size(marks.len()).len(), marks);
}

/// A checkpoint as bytes: its tag in four bytes, its frontier, and the number
/// of positions marked by then in eight bytes.
pub open spec fn enc_checkpoint(c: CheckpointModel) -> Seq<u8> {
    spec_u32_to_le_bytes(c.id) + enc_frontier(c.frontier) + spec_u64_to_le_bytes(c.marks_len as u64)
}

/// The checkpoint can be written.
pub open spec fn checkpoint_encodable(c: CheckpointModel) -> bool {
    frontier_encodable(c.frontier) && c.marks_len <= usize::MAX
}

/// The checkpoints one after the other.
pub open spec fn enc_checkpoint_items(checkpoints: Seq<CheckpointModel>) -> Seq<u8>
    decreases checkpoints.len(),
{
    if checkpoints.len() == 0 {
        Seq::empty()
    } else {
        enc_checkpoint_items(checkpoints.drop_last()) + enc_checkpoint(checkpoints.last())
    }
}

/// The list of checkpoints: its length in compact form, then the checkpoints.
pub open spec fn enc_checkpoints(checkpoints: Seq<CheckpointModel>) -> Seq<u8> {
    compact_size(checkpoints.len()) + enc_checkpoint_items(checkpoints)
}

/// The checkpoints can be written.
pub open spec fn checkpoints_encodable(checkpoints: Seq<CheckpointModel>) -> bool {
    &&& checkpoints.len() <= MAX_COMPACT_SIZE
    &&& forall|i: int|
        0 <= i < checkpoints.len() ==> checkpoint_encodable(#[trigger] checkpoints[i])
}

/// One checkpoint read at `p`.
pub open spec fn dec_checkpoint(b: Seq<u8>, p: int) -> Option<(CheckpointModel, int)> {
    match dec_u32(b, p) {
        None => None,
        Some((id, q)) => match dec_frontier(b, q) {
            None => None,
            Some((frontier, r)) => match dec_u64(b, r) {
                None => None,
                Some((marks_len, s)) => if marks_len <= usize::MAX {
                    Some((CheckpointModel { id, frontier, marks_len: marks_len as nat }, s))
                } else {
                    None
                },
            },
        },
    }
}

/// `n` checkpoints read from `p` on.
pub open spec fn dec_checkpoint_items(b: Seq<u8>, p: int, n: nat) -> Option<
    (Seq<CheckpointModel>, int),
>
    decreases n,
{
    if n == 0 {
        Some((Seq::empty(), p))
    } else {
        match dec_checkpoint_items(b, p, (n - 1) as nat) {
            None => None,
            Some((checkpoints, q)) => match dec_checkpoint(b, q) {
                None => None,
                Some((c, r)) => Some((checkpoints.push(c), r)),
            },
        }
    }
}

/// The list of checkpoints read at `p`.
pub open spec fn dec_checkpoints(b: Seq<u8>, p: int) -> Option<(Seq<CheckpointModel>, int)> {
    match dec_compact(b, p) {
        None => None,
        Some((n, q)) => dec_checkpoint_items(b, q, n),
    }
}

/// Once the reading of checkpoints has failed, it fails for every longer list.
pub proof fn lemma_dec_checkpoint_items_fails(b: Seq<u8>, p: int, i: nat, n: nat)
    requires
        i <= n,
        dec_checkpoint_items(b, p, i).is_none(),
    ensures
        dec_checkpoint_items(b, p, n).is_none(),
    decreases n,
{
    if i < n {
        lemma_dec_checkpoint_items_fails(b, p, i, (n - 1) as nat);
    }
}

/// Reading a checkpoint where it was written gives it back.
pub proof fn lemma_dec_checkpoint(b: Seq<u8>, p: int, c: CheckpointModel)
    requires
        holds_at(b, p, enc_checkpoint(c)),
        checkpoint_encodable(c),
    ensures
        dec_checkpoint(b, p) == Some((c, p + enc_checkpoint(c).len())),
{
    let id = spec_u32_to_le_bytes(c.id);
    let count = spec_u64_to_le_bytes(c.marks_len as u64);
    lemma_holds_split(b, p, id + enc_frontier(c.frontier), count);
    lemma_holds_split(b, p, id, enc_frontier(c.frontier));
    lemma_dec_u32(b, p, c.id);
    lemma_dec_frontier(b, p + 4, c.frontier);
    lemma_dec_u64(b, p + 4 + enc_frontier(c.frontier).len(), c.marks_len as u64);
}

/// Reading checkpoints where they were written gives them back.
pub proof fn lemma_dec_checkpoint_items(b: Seq<u8>, p: int, checkpoints: Seq<CheckpointModel>)
    requires
        holds_at(b, p, enc_checkpoint_items(checkpoints)),
        forall|i: int|
            0 <= i < checkpoints.len() ==> checkpoint_encodable(#[trigger] checkpoints[i]),
    ensures
        dec_checkpoint_items(b, p, checkpoints.len()) == Some(
            (checkpoints, p + enc_checkpoint_items(checkpoints).len()),
        ),
    decreases checkpoints.len(),
{
    if checkpoints.len() > 0 {
        let front = checkpoints.drop_last();
        let last = checkpoints.last();
        lemma_holds_split(b, p, enc_checkpoint_items(front), enc_checkpoint(last));
        assert forall|i: int| 0 <= i < front.len() implies checkpoint_encodable(
            #[trigger] front[i],
        ) by {
            assert(front[i] == checkpoints[i]);
        }
        lemma_dec_checkpoint_items(b, p, front);
        lemma_dec_checkpoint(b, p + enc_checkpoint_items(front).len(), last);
        assert(front.push(last) =~= checkpoints);
    }
}

/// Reading the list of checkpoints where it was written gives it back.
pub proof fn lemma_dec_checkpoints(b: Seq<u8>, p: int, checkpoints: Seq<CheckpointModel>)
    requires
        holds_at(b, p, enc_checkpoints(checkpoints)),
        checkpoints_encodable(checkpoints),
    ensures
        dec_checkpoints(b, p) == Some((checkpoints, p + enc_checkpoints(checkpoints).len())),
{
    lemma_holds_split(b, p, compact_size(checkpoints.len()), enc_checkpoint_items(checkpoints));
    lemma_dec_compact(b, p, checkpoints.len());
    lemma_dec_checkpoint_items(b, p + compact_size(checkpoints.len()).len(), checkpoints);
}

/// The parts of a tree as they are persisted.
pub struct TreeParts {
    pub frontier: FrontierModel,
    pub marks: Seq<u64>,
    pub checkpoints: Seq<CheckpointModel>,
}

/// The parts of a tree.
pub open spec fn parts_of(t: TreeModel) -> TreeParts {
    TreeParts { frontier: t.frontier, marks: t.marks, checkpoints: t.checkpoints }
}

/// A tree as bytes: its frontier, its marked positions, its checkpoints.
pub open spec fn enc_tree(t: TreeParts) -> Seq<u8> {
    enc_frontier(t.frontier) + enc_marks(t.marks) + enc_checkpoints(t.checkpoints)
}

/// The tree can be written.
pub open spec fn tree_encodable(t: TreeParts) -> bool {
    &&& frontier_encodable(t.frontier)
    &&& t.marks.len() <= MAX_COMPACT_SIZE
    &&& checkpoints_encodable(t.checkpoints)
}

/// A tree read at `p`.
pub open spec fn dec_tree(b: Seq<u8>, p: int) -> Option<(TreeParts, int)> {
    match dec_frontier(b, p) {
        None => None,
        Some((frontier, q)) => match dec_marks(b, q) {
            None => None,
            Some((marks, r)) => match dec_checkpoints(b, r) {
                None => None,
                Some((checkpoints, s)) => Some((TreeParts { frontier, marks, checkpoints }, s)),
            },
        },
    }
}

/// Reading a tree where it was written gives it back.
pub proof fn lemma_dec_tree(b: Seq<u8>, p: int, t: TreeParts)
    requires
        holds_at(b, p, enc_tree(t)),
        tree_encodable(t),
    ensures
        dec_tree(b, p) == Some((t, p + enc_tree(t).len())),
{
    lemma_holds_split(b, p, enc_frontier(t.frontier) + enc_marks(t.marks), enc_checkpoints(t.checkpoints));
    lemma_holds_split(b, p, enc_frontier(t.frontier), enc_marks(t.marks));
    lemma_dec_frontier(b, p, t.frontier);
    lemma_dec_marks(b, p + enc_frontier(t.frontier).len(), t.marks);
    lemma_dec_checkpoints(
        b,
        p + enc_frontier(t.frontier).len() + enc_marks(t.marks).len(),
        t.checkpoints,
    );
}

/// Appends a frontier, where it can be written.
pub fn write_frontier(out: &mut Vec<u8>, frontier: &SaplingFrontier) -> (done: bool)
    ensures
        done == (frontier_encoding(frontier@).len() <= MAX_COMPACT_SIZE),
        done ==> frontier_encodable(frontier@) && final(out)@ == old(out)@ + enc_frontier(
            frontier@,
        ),
{
    let mut blob = frontier.serialize();
    if blob.len() > MAX_COMPACT_SIZE {
        return false;
    }
    write_compact(out, blob.len());
    out.append(&mut blob);
    proof {
        assert(out@ =~= old(out)@ + enc_frontier(frontier@));
    }
    true
}

/// Reads a frontier at `p`.
pub fn read_frontier(b: &[u8], p: usize) -> (r: Option<(SaplingFrontier, usize)>)
    ensures
        match r {
            Some((f, q)) => dec_frontier(b@, p as int) == Some((f@, q as int)),
            None => dec_frontier(b@, p as int).is_none(),
        },
{
    let (count, start) = match read_compact(b, p) {
        Some(v) => v,
        None => {
            return None;
        },
    };
    if start > b.len() || b.len() - start < count {
        return None;
    }
    match SaplingFrontier::parse(slice_subrange(b, start, start + count)) {
        Ok(f) => Some((*f, start + count)),
        Err(_) => None,
    }
}

/// Appends the list of marked positions.
pub fn write_marks(out: &mut Vec<u8>, marks: &Vec<u64>)
    requires
        marks@.len() <= MAX_COMPACT_SIZE,
    ensures
        final(out)@ == old(out)@ + enc_marks(marks@),
{
    write_compact(out, marks.len());
    let ghost head = out@;
    let mut i: usize = 0;
    proof {
        assert(marks@.take(0) =~= Seq::empty());
        assert(out@ =~= head + enc_mark_items(marks@.take(0)));
    }
    while i < marks.len()
        invariant
            i <= marks@.len(),
            out@ == head + enc_mark_items(marks@.take(i as int)),
        decreases marks@.len() - i,
    {
        write_u64(out, marks[i]);
        proof {
            assert(marks@.take(i + 1).drop_last() =~= marks@.take(i as int));
            assert(marks@.take(i + 1).last() == marks@[i as int]);
            assert(out@ =~= head + enc_mark_items(marks@.take(i + 1)));
        }
        i += 1;
    }
    proof {
        assert(marks@.take(marks@.len() as int) =~= marks@);
        assert(out@ =~= old(out)@ + enc_marks(marks@));
    }
}

/// Reads the list of marked positions at `p`.
pub fn read_marks(b: &[u8], p: usize) -> (r: Option<(Vec<u64>, usize)>)
    ensures
        match r {
            Some((marks, q)) => dec_marks(b@, p as int) == Some((marks@, q as int)),
            None => dec_marks(b@, p as int).is_none(),
        },
{
    let (count, start) = match read_compact(b, p) {
        Some(v) => v,
        None => {
            return None;
        },
    };
    let mut marks: Vec<u64> = Vec::new();
    let mut q: usize = start;
    let mut i: usize = 0;
    while i < count
        invariant
            i <= count,
            dec_compact(b@, p as int) == Some((count as nat, start as int)),
            dec_mark_items(b@, start as int, i as nat) == Some((marks@, q as int)),
        decreases count - i,
    {
        match read_u64(b, q) {
            Some((mark, after)) => {
                marks.push(mark);
                q = after;
            },
            None => {
                proof {
                    assert(dec_mark_items(b@, start as int, (i + 1) as nat).is_none());
                    lemma_dec_mark_items_fails(b@, start as int, (i + 1) as nat, count as nat);
                }
                return None;
            },
        }
        i += 1;
    }
    Some((marks, q))
}

/// Appends the list of checkpoints, where each can be written.
pub fn write_checkpoints(out: &mut Vec<u8>, checkpoints: &Vec<Checkpoint>) -> (done: bool)
    ensures
        done == checkpoints_encodable_sizes(checkpoint_views(checkpoints@)),
        done ==> checkpoints_encodable(checkpoint_views(checkpoints@)) && final(out)@ == old(out)@
            + enc_checkpoints(checkpoint_views(checkpoints@)),
{
    let ghost models = checkpoint_views(checkpoints@);
    if checkpoints.len() > MAX_COMPACT_SIZE {
        return false;
    }
    write_compact(out, checkpoints.len());
    let ghost head = out@;
    let mut i: usize = 0;
    proof {
        assert(models.take(0) =~= Seq::empty());
        assert(out@ =~= head + enc_checkpoint_items(models.take(0)));
    }
    while i < checkpoints.len()
        invariant
            i <= checkpoints@.len(),
            models == checkpoint_views(checkpoints@),
            models.len() <= MAX_COMPACT_SIZE,
            forall|k: int| 0 <= k < i ==> checkpoint_encodable(#[trigger] models[k]),
            out@ == head + enc_checkpoint_items(models.take(i as int)),
        decreases checkpoints@.len() - i,
    {
        let ghost before = out@;
        let c = &checkpoints[i];
        assert(models[i as int] == c@);
        write_u32(out, c.id);
        if !write_frontier(out, &c.frontier) {
            return false;
        }
        write_u64(out, c.marks_len as u64);
        proof {
            assert(models.take(i + 1).drop_last() =~= models.take(i as int));
            assert(models.take(i + 1).last() == models[i as int]);
            assert(out@ =~= before + enc_checkpoint(models[i as int]));
            assert(out@ =~= head + enc_checkpoint_items(models.take(i + 1)));
        }
        i += 1;
    }
    proof {
        assert(models.take(models.len() as int) =~= models);
        assert(out@ =~= old(out)@ + enc_checkpoints(models));
    }
    true
}

/// The list is not too long, and the encoding of each frontier is not too long.
pub open spec fn checkpoints_encodable_sizes(checkpoints: Seq<CheckpointModel>) -> bool {
    &&& checkpoints.len() <= MAX_COMPACT_SIZE
    &&& forall|i: int|
        0 <= i < checkpoints.len() ==> frontier_encoding((#[trigger] checkpoints[i]).frontier).len()
            <= MAX_COMPACT_SIZE
}

/// Reads the list of checkpoints at `p`.
pub fn read_checkpoints(b: &[u8], p: usize) -> (r: Option<(Vec<Checkpoint>, usize)>)
    ensures
        match r {
            Some((checkpoints, q)) => dec_checkpoints(b@, p as int) == Some(
                (checkpoint_views(checkpoints@), q as int),
            ),
            None => dec_checkpoints(b@, p as int).is_none(),
        },
{
    let (count, start) = match read_compact(b, p) {
        Some(v) => v,
        None => {
            return None;
        },
    };
    let mut checkpoints: Vec<Checkpoint> = Vec::new();
    let mut q: usize = start;
    let mut i: usize = 0;
    proof {
        assert(checkpoint_views(checkpoints@) =~= Seq::empty());
    }
    while i < count
        invariant
            i <= count,
            dec_compact(b@, p as int) == Some((count as nat, start as int)),
            dec_checkpoint_items(b@, start as int, i as nat) == Some(
                (checkpoint_views(checkpoints@), q as int),
            ),
        decreases count - i,
    {
        let ghost held = checkpoint_views(checkpoints@);
        let parts = match read_u32(b, q) {
            None => None,
            Some((id, after_id)) => match read_frontier(b, after_id) {
                None => None,
                Some((frontier, after_frontier)) => match read_u64(b, after_frontier) {
                    None => None,
                    Some((marks_len, after)) => if marks_len <= usize::MAX as u64 {
                        Some((Checkpoint { id, frontier, marks_len: marks_len as usize }, after))
                    } else {
                        None
                    },
                },
            },
        };
        match parts {
            None => {
                proof {
                    assert(dec_checkpoint(b@, q as int).is_none());
                    assert(dec_checkpoint_items(b@, start as int, (i + 1) as nat).is_none());
                    lemma_dec_checkpoint_items_fails(b@, start as int, (i + 1) as nat, count as nat);
                }
                return None;
            },
            Some((c, after)) => {
                proof {
                    assert(dec_checkpoint(b@, q as int) == Some((c@, after as int)));
                }
                checkpoints.push(c);
                proof {
                    assert(checkpoint_views(checkpoints@) =~= held.push(c@));
                }
                q = after;
                i += 1;
            },
        }
    }
    Some((checkpoints, q))
}

/// The lists are not too long, and the encoding of each frontier is not too long.
pub open spec fn tree_encodable_sizes(t: TreeParts) -> bool {
    &&& frontier_encoding(t.frontier).len() <= MAX_COMPACT_SIZE
    &&& t.marks.len() <= MAX_COMPACT_SIZE
    &&& checkpoints_encodable_sizes(t.checkpoints)
}

impl CheckpointedTree {
    /// Appends the tree, where it can be written. What was appended is read
    /// back as the same frontier, marked positions and checkpoints.
    pub fn write(&self, out: &mut Vec<u8>) -> (done: bool)
        ensures
            done == tree_encodable_sizes(parts_of(self@)),
            done ==> tree_encodable(parts_of(self@)) && final(out)@ == old(out)@ + enc_tree(
                parts_of(self@),
            ),
    {
        if !write_frontier(out, &self.frontier) {
            return false;
        }
        if self.marks.len() > MAX_COMPACT_SIZE {
            return false;
        }
        write_marks(out, &self.marks);
        if !write_checkpoints(out, &self.checkpoints) {
            return false;
        }
        proof {
            assert(out@ =~= old(out)@ + enc_tree(parts_of(self@)));
        }
        true
    }

    /// Reads a tree that keeps up to `max_checkpoints` checkpoints at `p`:
    /// the bytes must hold a frontier, marked positions and checkpoints that
    /// make a well-formed tree.
    pub fn read(b: &[u8], p: usize, max_checkpoints: usize) -> (r: Option<(Self, usize)>)
        ensures
            match r {
                Some((t, q)) => {
                    &&& t.wf()
                    &&& t@.max_checkpoints == max_checkpoints
                    &&& t@.retired == Seq::<CheckpointModel>::empty()
                    &&& dec_tree(b@, p as int) == Some((parts_of(t@), q as int))
                },
                None => match dec_tree(b@, p as int) {
                    None => true,
                    Some((parts, q)) => {
                        let m = TreeModel {
                            frontier: parts.frontier,
                            marks: parts.marks,
                            checkpoints: parts.checkpoints,
                            max_checkpoints: max_checkpoints as nat,
                            retired: Seq::empty(),
                        };
                        !(m.wf() && m.bounded())
                    },
                },
            },
    {
        let (frontier, after_frontier) = match read_frontier(b, p) {
            Some(v) => v,
            None => {
                return None;
            },
        };
        let (marks, after_marks) = match read_marks(b, after_frontier) {
            Some(v) => v,
            None => {
                return None;
            },
        };
        let (checkpoints, after) = match read_checkpoints(b, after_marks) {
            Some(v) => v,
            None => {
                return None;
            },
        };
        match CheckpointedTree::from_parts(frontier, marks, checkpoints, max_checkpoints) {
            Some(t) => Some((t, after)),
            None => None,
        }
    }
}

} // verus!
