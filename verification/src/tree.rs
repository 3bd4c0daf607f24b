//! A Sapling commitment tree with marked positions and a bounded history of
//! checkpoints to which it can be rewound.

use vstd::prelude::*;
use crate::frontier::{byte_seqs, FrontierError, FrontierModel, MAX_LEAVES};
use crate::sapling_frontier::{
    lemma_sapling_appended_all_size, sapling_appended, sapling_appended_all, SaplingFrontier,
};
use crate::sapling_node::{sapling_all_valid, sapling_commitment_valid, sapling_root_of};

verus! {

/// A checkpoint: its tag, the frontier when it was taken, and how many
/// positions were marked by then.
pub struct CheckpointModel {
    pub id: u32,
    pub frontier: FrontierModel,
    pub marks_len: nat,
}

/// The state of a checkpointed tree: the current frontier, the marked
/// positions in increasing order, the checkpoints within reach of a rewind
/// from oldest to newest, the number of checkpoints that are kept within
/// reach, and the retired checkpoints: those that have left the reach of
/// every rewind and whose records wait for garbage collection.
pub struct TreeModel {
    pub frontier: FrontierModel,
    pub marks: Seq<u64>,
    pub checkpoints: Seq<CheckpointModel>,
    pub max_checkpoints: nat,
    pub retired: Seq<CheckpointModel>,
}

impl TreeModel {
    /// The tree without leaves, marks or checkpoints.
    pub open spec fn empty(max_checkpoints: nat) -> TreeModel {
        TreeModel::from_frontier(
            FrontierModel { size: 0, nodes: Seq::empty() },
            max_checkpoints,
        )
    }

    /// The tree that starts from a frontier, without marks or checkpoints.
    pub open spec fn from_frontier(frontier: FrontierModel, max_checkpoints: nat) -> TreeModel {
        TreeModel {
            frontier,
            marks: Seq::empty(),
            checkpoints: Seq::empty(),
            max_checkpoints,
            retired: Seq::empty(),
        }
    }

    /// Checkpoint tags strictly increase, marks strictly increase and lie in
    /// the tree, and each checkpoint holds a state that the tree went through.
    pub open spec fn wf(self) -> bool {
        &&& self.max_checkpoints >= 1
        &&& self.frontier.size <= MAX_LEAVES
        &&& forall|i: int, j: int|
            0 <= i < j < self.marks.len() ==> self.marks[i] < self.marks[j]
        &&& forall|i: int| 0 <= i < self.marks.len() ==> (#[trigger] self.marks[i]) < self.frontier.size
        &&& forall|i: int, j: int|
            0 <= i < j < self.checkpoints.len() ==> {
                &&& self.checkpoints[i].id < self.checkpoints[j].id
                &&& self.checkpoints[i].marks_len <= self.checkpoints[j].marks_len
                &&& self.checkpoints[i].frontier.size <= self.checkpoints[j].frontier.size
            }
        &&& forall|i: int|
            0 <= i < self.checkpoints.len() ==> {
                &&& (#[trigger] self.checkpoints[i]).marks_len <= self.marks.len()
                &&& self.checkpoints[i].frontier.size <= self.frontier.size
                &&& forall|k: int|
                    0 <= k < self.checkpoints[i].marks_len ==> (#[trigger] self.marks[k])
                        < self.checkpoints[i].frontier.size
            }
    }

    /// No more checkpoints are held than are kept.
    pub open spec fn bounded(self) -> bool {
        self.checkpoints.len() <= self.max_checkpoints
    }

    /// The tree after one more leaf.
    pub open spec fn appended(self, leaf: Seq<u8>) -> TreeModel {
        TreeModel { frontier: sapling_appended(self.frontier, leaf), ..self }
    }

    /// The tree after a run of leaves.
    pub open spec fn appended_all(self, leaves: Seq<Seq<u8>>) -> TreeModel {
        TreeModel { frontier: sapling_appended_all(self.frontier, leaves), ..self }
    }

    /// The tree after its latest leaf is marked: nothing changes in an empty
    /// tree, or where that leaf is marked already.
    pub open spec fn marked(self) -> TreeModel {
        if self.frontier.size == 0 || (self.marks.len() > 0 && self.marks.last() + 1
            == self.frontier.size) {
            self
        } else {
            TreeModel { marks: self.marks.push((self.frontier.size - 1) as u64), ..self }
        }
    }

    /// A checkpoint is taken only under a tag above that of the newest one.
    pub open spec fn accepts_checkpoint(self, id: u32) -> bool {
        self.checkpoints.len() == 0 || self.checkpoints.last().id < id
    }

    /// The tree with only its newest `max_checkpoints` checkpoints within
    /// reach of a rewind: the older ones are retired, oldest first, behind
    /// those retired before.
    pub open spec fn retiring(self) -> TreeModel {
        if self.checkpoints.len() > self.max_checkpoints {
            let excess = self.checkpoints.len() - self.max_checkpoints;
            TreeModel {
                checkpoints: self.checkpoints.skip(excess),
                retired: self.retired + self.checkpoints.take(excess),
                ..self
            }
        } else {
            self
        }
    }

    /// The tree after garbage collection: the checkpoints beyond the newest
    /// `max_checkpoints` are out of reach, and no retired checkpoint is held
    /// any more. What a rewind can reach stays as it is.
    pub open spec fn collected(self) -> TreeModel {
        TreeModel { retired: Seq::empty(), ..self.retiring() }
    }

    /// The tree after a checkpoint of its current state under `id`; the oldest
    /// checkpoint is retired where more than `max_checkpoints` would be in reach.
    pub open spec fn checkpointed(self, id: u32) -> TreeModel {
        TreeModel {
            checkpoints: self.checkpoints.push(
                CheckpointModel { id, frontier: self.frontier, marks_len: self.marks.len() },
            ),
            ..self
        }.retiring()
    }

    /// The tree put back to its newest checkpoint, which is removed: the
    /// frontier is that of the checkpoint, and the positions marked since are
    /// no longer marked. Without a checkpoint nothing changes.
    pub open spec fn rewound(self) -> TreeModel {
        if self.checkpoints.len() == 0 {
            self
        } else {
            let c = self.checkpoints.last();
            TreeModel {
                frontier: c.frontier,
                marks: self.marks.take(c.marks_len as int),
                checkpoints: self.checkpoints.drop_last(),
                ..self
            }
        }
    }

    /// The tree after `steps` rewinds in a row.
    pub open spec fn rewound_by(self, steps: nat) -> TreeModel
        decreases steps,
    {
        if steps == 0 {
            self
        } else {
            self.rewound_by((steps - 1) as nat).rewound()
        }
    }

    /// After `steps` rewinds the oldest checkpoints are left, as many as were
    /// not used; the limit stays; and once none is left, further rewinds
    /// change nothing.
    pub proof fn lemma_rewound_by(self, steps: nat)
        ensures
            self.rewound_by(steps).max_checkpoints == self.max_checkpoints,
            self.rewound_by(steps).retired == self.retired,
            steps <= self.checkpoints.len() ==> self.rewound_by(steps).checkpoints
                == self.checkpoints.take(self.checkpoints.len() - steps),
            steps >= self.checkpoints.len() ==> self.rewound_by(steps) == self.rewound_by(
                self.checkpoints.len(),
            ),
            1 <= steps <= self.checkpoints.len() ==> {
                let c = self.checkpoints[self.checkpoints.len() - steps];
                &&& self.rewound_by(steps).frontier == c.frontier
                &&& self.wf() ==> self.rewound_by(steps).marks == self.marks.take(c.marks_len as int)
            },
            steps == 0 ==> self.rewound_by(steps) == self,
        decreases steps,
    {
        let n = self.checkpoints.len();
        if steps > 0 {
            let before = self.rewound_by((steps - 1) as nat);
            self.lemma_rewound_by((steps - 1) as nat);
            if steps <= n {
                assert(before.checkpoints =~= self.checkpoints.take(n - steps + 1));
                assert(before.checkpoints.drop_last() =~= self.checkpoints.take(n - steps));
                assert(before.checkpoints.last() == self.checkpoints[n - steps]);
                if self.wf() && steps >= 2 {
                    let c = self.checkpoints[n - steps];
                    let d = self.checkpoints[n - steps + 1];
                    assert(c.marks_len <= d.marks_len);
                    assert(self.marks.take(d.marks_len as int).take(c.marks_len as int)
                        =~= self.marks.take(c.marks_len as int));
                }
            } else {
                assert(before.checkpoints =~= Seq::<CheckpointModel>::empty()) by {
                    if steps - 1 <= n {
                        assert(self.checkpoints.take(0) =~= Seq::<CheckpointModel>::empty());
                    } else {
                        self.lemma_rewound_by(n);
                        assert(self.checkpoints.take(0) =~= Seq::<CheckpointModel>::empty());
                    }
                }
            }
        } else {
            assert(self.checkpoints.take(n as int) =~= self.checkpoints);
        }
    }

    /// The marks that stay however far the tree is rewound: those made before
    /// its oldest checkpoint.
    pub open spec fn lasting_marks(self) -> Seq<u64> {
        if self.checkpoints.len() == 0 {
            self.marks
        } else {
            self.marks.take(self.checkpoints[0].marks_len as int)
        }
    }

    /// The root as of `depth` checkpoints ago: the current root for 0, none
    /// where fewer checkpoints are held.
    pub open spec fn root_at(self, depth: nat) -> Option<Seq<u8>> {
        if depth == 0 {
            Some(sapling_root_of(self.frontier.size, self.frontier.nodes))
        } else if depth <= self.checkpoints.len() {
            let c = self.checkpoints[self.checkpoints.len() - depth];
            Some(sapling_root_of(c.frontier.size, c.frontier.nodes))
        } else {
            None
        }
    }
}

/// A checkpoint as it is held.
pub struct Checkpoint {
    pub(crate) id: u32,
    pub(crate) frontier: SaplingFrontier,
    pub(crate) marks_len: usize,
}

impl Checkpoint {
    /// The tag, the frontier and the number of marks of the checkpoint.
    pub open(crate) spec fn view(&self) -> CheckpointModel {
        CheckpointModel { id: self.id, frontier: self.frontier@, marks_len: self.marks_len as nat }
    }

    /// The checkpoint under `id` of a tree that had the given frontier and
    /// `marks_len` marked positions.
    pub fn new(id: u32, frontier: SaplingFrontier, marks_len: usize) -> (c: Self)
        ensures
            c@ == (CheckpointModel { id, frontier: frontier@, marks_len: marks_len as nat }),
    {
        Checkpoint { id, frontier, marks_len }
    }
}

/// The checkpoints as they are held, as states.
pub open spec fn checkpoint_views(checkpoints: Seq<Checkpoint>) -> Seq<CheckpointModel> {
    Seq::new(checkpoints.len(), |i: int| checkpoints[i]@)
}

/// In a sequence in which each element is below the next, each is below all
/// that follow it.
pub proof fn lemma_rising(s: Seq<int>, i: int, j: int)
    requires
        forall|a: int, b: int| 0 <= a && b == a + 1 && b < s.len() ==> s[a] < s[b],
        0 <= i < j < s.len(),
    ensures
        s[i] < s[j],
    decreases j - i,
{
    if i + 1 < j {
        lemma_rising(s, i, j - 1);
        assert(s[j - 1] < s[j]);
    }
}

/// In a sequence in which no element is above the next, none is above any
/// that follows it.
pub proof fn lemma_not_falling(s: Seq<int>, i: int, j: int)
    requires
        forall|a: int, b: int| 0 <= a && b == a + 1 && b < s.len() ==> s[a] <= s[b],
        0 <= i <= j < s.len(),
    ensures
        s[i] <= s[j],
    decreases j - i,
{
    if i < j {
        lemma_not_falling(s, i, j - 1);
        assert(s[j - 1] <= s[j]);
    }
}

/// The checkpointed tree of a wallet.
pub struct CheckpointedTree {
    pub(crate) frontier: SaplingFrontier,
    pub(crate) marks: Vec<u64>,
    pub(crate) checkpoints: Vec<Checkpoint>,
    pub(crate) max_checkpoints: usize,
    pub(crate) retired: Vec<Checkpoint>,
}

impl CheckpointedTree {
    /// The state of the tree.
    pub open(crate) spec fn view(&self) -> TreeModel {
        TreeModel {
            frontier: self.frontier@,
            marks: self.marks@,
            checkpoints: checkpoint_views(self.checkpoints@),
            max_checkpoints: self.max_checkpoints as nat,
            retired: checkpoint_views(self.retired@),
        }
    }

    /// The invariant of the tree, but for the bound on its checkpoints.
    pub open spec fn wf_unbounded(&self) -> bool {
        self@.wf()
    }

    /// The invariant of the tree.
    pub open spec fn wf(&self) -> bool {
        self@.wf() && self@.bounded()
    }

    /// The empty tree that keeps up to `max_checkpoints` checkpoints.
    pub fn new(max_checkpoints: usize) -> (t: Self)
        requires
            max_checkpoints >= 1,
        ensures
            t.wf(),
            t@ == TreeModel::empty(max_checkpoints as nat),
    {
        let t = CheckpointedTree {
            frontier: SaplingFrontier::empty(),
            marks: Vec::new(),
            checkpoints: Vec::new(),
            max_checkpoints,
            retired: Vec::new(),
        };
        assert(t@.checkpoints =~= Seq::empty());
        assert(t@.retired =~= Seq::empty());
        assert(t@.frontier == (FrontierModel { size: 0, nodes: Seq::empty() }));
        t
    }

    /// The tree made of the given frontier, marked positions and checkpoints,
    /// if they make a well-formed tree with no more checkpoints than are kept.
    pub fn from_parts(
        frontier: SaplingFrontier,
        marks: Vec<u64>,
        checkpoints: Vec<Checkpoint>,
        max_checkpoints: usize,
    ) -> (r: Option<Self>)
        ensures
            match r {
                Some(t) => t.wf() && t@ == (TreeModel {
                    frontier: frontier@,
                    marks: marks@,
                    checkpoints: checkpoint_views(checkpoints@),
                    max_checkpoints: max_checkpoints as nat,
                    retired: Seq::empty(),
                }),
                None => {
                    let m = TreeModel {
                        frontier: frontier@,
                        marks: marks@,
                        checkpoints: checkpoint_views(checkpoints@),
                        max_checkpoints: max_checkpoints as nat,
                        retired: Seq::empty(),
                    };
                    !(m.wf() && m.bounded())
                },
            },
    {
        let ghost m = TreeModel {
            frontier: frontier@,
            marks: marks@,
            checkpoints: checkpoint_views(checkpoints@),
            max_checkpoints: max_checkpoints as nat,
            retired: Seq::empty(),
        };
        if max_checkpoints < 1 || checkpoints.len() > max_checkpoints {
            return None;
        }
        let size: u64 = frontier.size();
        let count: usize = marks.len();
        let mut i: usize = 1;
        while i < count
            invariant
                1 <= i,
                count == marks@.len(),
                m == (TreeModel {
                    frontier: frontier@,
                    marks: marks@,
                    checkpoints: checkpoint_views(checkpoints@),
                    max_checkpoints: max_checkpoints as nat,
                    retired: Seq::empty(),
                }),
                forall|a: int, b: int| 0 <= a && b == a + 1 && b < i ==> marks@[a] < marks@[b],
            decreases count - i,
        {
            if marks[i - 1] >= marks[i] {
                assert(!(m.marks[i - 1] < m.marks[i as int]));
                return None;
            }
            i += 1;
        }
        if count > 0 && marks[count - 1] >= size {
            assert(!(m.marks[count - 1] < m.frontier.size));
            return None;
        }
        let n: usize = checkpoints.len();
        let mut i: usize = 0;
        while i < n
            invariant
                i <= n,
                n == checkpoints@.len(),
                count == marks@.len(),
                size == frontier@.size,
                m == (TreeModel {
                    frontier: frontier@,
                    marks: marks@,
                    checkpoints: checkpoint_views(checkpoints@),
                    max_checkpoints: max_checkpoints as nat,
                    retired: Seq::empty(),
                }),
                forall|a: int, b: int|
                    0 <= a && b == a + 1 && b < i ==> {
                        &&& m.checkpoints[a].id < m.checkpoints[b].id
                        &&& m.checkpoints[a].marks_len <= m.checkpoints[b].marks_len
                        &&& m.checkpoints[a].frontier.size <= m.checkpoints[b].frontier.size
                    },
                forall|a: int|
                    0 <= a < i ==> {
                        &&& (#[trigger] m.checkpoints[a]).marks_len <= count
                        &&& m.checkpoints[a].frontier.size <= size
                        &&& (m.checkpoints[a].marks_len > 0 ==> marks@[m.checkpoints[a].marks_len - 1]
                            < m.checkpoints[a].frontier.size)
                    },
            decreases n - i,
        {
            let c = &checkpoints[i];
            assert(m.checkpoints[i as int] == checkpoints@[i as int]@);
            let c_size: u64 = c.frontier.size();
            if c.marks_len > count || c_size > size {
                return None;
            }
            if c.marks_len > 0 && marks[c.marks_len - 1] >= c_size {
                assert(!(m.marks[c.marks_len - 1] < m.checkpoints[i as int].frontier.size));
                return None;
            }
            if i > 0 {
                let prev = &checkpoints[i - 1];
                assert(m.checkpoints[i - 1] == checkpoints@[i - 1]@);
                let prev_size: u64 = prev.frontier.size();
                if prev.id >= c.id || prev.marks_len > c.marks_len || prev_size > c_size {
                    return None;
                }
            }
            i += 1;
        }
        proof {
            let marks_seq = Seq::new(marks@.len(), |k: int| marks@[k] as int);
            let ids = Seq::new(m.checkpoints.len(), |k: int| m.checkpoints[k].id as int);
            let lens = Seq::new(m.checkpoints.len(), |k: int| m.checkpoints[k].marks_len as int);
            let sizes = Seq::new(m.checkpoints.len(), |k: int| m.checkpoints[k].frontier.size as int);
            assert forall|a: int, b: int| 0 <= a < b < m.marks.len() implies m.marks[a] < m.marks[b] by {
                lemma_rising(marks_seq, a, b);
            }
            assert forall|a: int| 0 <= a < m.marks.len() implies (#[trigger] m.marks[a])
                < m.frontier.size by {
                if a < count - 1 {
                    lemma_rising(marks_seq, a, count - 1);
                }
            }
            assert forall|a: int, b: int| 0 <= a < b < m.checkpoints.len() implies {
                &&& m.checkpoints[a].id < m.checkpoints[b].id
                &&& m.checkpoints[a].marks_len <= m.checkpoints[b].marks_len
                &&& m.checkpoints[a].frontier.size <= m.checkpoints[b].frontier.size
            } by {
                lemma_rising(ids, a, b);
                lemma_not_falling(lens, a, b);
                lemma_not_falling(sizes, a, b);
            }
            assert forall|a: int| 0 <= a < m.checkpoints.len() implies {
                &&& (#[trigger] m.checkpoints[a]).marks_len <= m.marks.len()
                &&& m.checkpoints[a].frontier.size <= m.frontier.size
                &&& forall|k: int|
                    0 <= k < m.checkpoints[a].marks_len ==> (#[trigger] m.marks[k])
                        < m.checkpoints[a].frontier.size
            } by {
                assert forall|k: int| 0 <= k < m.checkpoints[a].marks_len implies (
                #[trigger] m.marks[k]) < m.checkpoints[a].frontier.size by {
                    if k < m.checkpoints[a].marks_len - 1 {
                        lemma_rising(marks_seq, k, m.checkpoints[a].marks_len - 1);
                    }
                }
            }
        }
        let t = CheckpointedTree { frontier, marks, checkpoints, max_checkpoints, retired: Vec::new() };
        assert(t@.retired =~= Seq::empty());
        Some(t)
    }

    /// The tree that goes on from a frontier, without marks or checkpoints.
    pub fn from_frontier(max_checkpoints: usize, frontier: SaplingFrontier) -> (t: Self)
        requires
            max_checkpoints >= 1,
        ensures
            t.wf(),
            t@ == TreeModel::from_frontier(frontier@, max_checkpoints as nat),
    {
        let size: u64 = frontier.size();
        assert(size <= MAX_LEAVES);
        let t = CheckpointedTree {
            frontier,
            marks: Vec::new(),
            checkpoints: Vec::new(),
            max_checkpoints,
            retired: Vec::new(),
        };
        assert(t@.checkpoints =~= Seq::empty());
        assert(t@.retired =~= Seq::empty());
        t
    }

    /// The number of leaves in the tree.
    pub fn size(&self) -> (n: u64)
        ensures
            n == self@.frontier.size,
    {
        self.frontier.size()
    }

    /// The number of checkpoints held.
    pub fn checkpoint_count(&self) -> (n: usize)
        ensures
            n == self@.checkpoints.len(),
    {
        self.checkpoints.len()
    }

    /// The number of retired checkpoints whose records are still held.
    pub fn retired_count(&self) -> (n: usize)
        ensures
            n == self@.retired.len(),
    {
        self.retired.len()
    }

    /// The number of marked positions.
    pub fn marked_count(&self) -> (n: usize)
        ensures
            n == self@.marks.len(),
    {
        self.marks.len()
    }

    /// The number of marks that stay however far the tree is rewound.
    pub fn lasting_marked_count(&self) -> (n: usize)
        requires
            self.wf_unbounded(),
        ensures
            n == self@.lasting_marks().len(),
    {
        if self.checkpoints.len() == 0 {
            self.marks.len()
        } else {
            assert(self@.checkpoints[0] == self.checkpoints@[0]@);
            self.checkpoints[0].marks_len
        }
    }

    /// The tag of the newest checkpoint.
    pub fn last_checkpoint_id(&self) -> (id: Option<u32>)
        ensures
            id == (if self@.checkpoints.len() == 0 {
                None
            } else {
                Some(self@.checkpoints.last().id)
            }),
    {
        let n = self.checkpoints.len();
        if n == 0 {
            None
        } else {
            assert(self@.checkpoints[n - 1] == self.checkpoints@[n - 1]@);
            Some(self.checkpoints[n - 1].id)
        }
    }

    /// Appends one commitment as the next leaf.
    pub fn append(&mut self, cmu: [u8; 32]) -> (r: Result<(), FrontierError>)
        requires
            old(self).wf_unbounded(),
        ensures
            final(self).wf_unbounded(),
            match r {
                Ok(()) => {
                    &&& sapling_commitment_valid(cmu@)
                    &&& old(self)@.frontier.size < MAX_LEAVES
                    &&& final(self)@ == old(self)@.appended(cmu@)
                },
                Err(FrontierError::InvalidCommitment) => {
                    &&& !sapling_commitment_valid(cmu@)
                    &&& final(self)@ == old(self)@
                },
                Err(FrontierError::TreeFull) => {
                    &&& sapling_commitment_valid(cmu@)
                    &&& old(self)@.frontier.size == MAX_LEAVES
                    &&& final(self)@ == old(self)@
                },
            },
    {
        let r = self.frontier.append(cmu);
        proof {
            assert(self@.marks == old(self)@.marks);
            assert(self@.frontier.size >= old(self)@.frontier.size);
            assert(self@.checkpoints =~= old(self)@.checkpoints);
            assert forall|i: int| 0 <= i < self@.checkpoints.len() implies {
                &&& (#[trigger] self@.checkpoints[i]).marks_len <= self@.marks.len()
                &&& self@.checkpoints[i].frontier.size <= self@.frontier.size
                &&& forall|k: int|
                    0 <= k < self@.checkpoints[i].marks_len ==> (#[trigger] self@.marks[k])
                        < self@.checkpoints[i].frontier.size
            } by {
                assert(self@.checkpoints[i] == old(self)@.checkpoints[i]);
            }
        }
        match r {
            Ok(_) => Ok(()),
            Err(e) => Err(e),
        }
    }

    /// Appends a run of commitments in order, all or none.
    pub fn append_all(&mut self, commitments: &Vec<[u8; 32]>) -> (r: Result<(), FrontierError>)
        requires
            old(self).wf_unbounded(),
        ensures
            final(self).wf_unbounded(),
            match r {
                Ok(()) => {
                    &&& sapling_all_valid(byte_seqs(commitments@))
                    &&& old(self)@.frontier.size + commitments.len() <= MAX_LEAVES
                    &&& final(self)@ == old(self)@.appended_all(byte_seqs(commitments@))
                },
                Err(FrontierError::InvalidCommitment) => {
                    &&& !sapling_all_valid(byte_seqs(commitments@))
                    &&& final(self)@ == old(self)@
                },
                Err(FrontierError::TreeFull) => {
                    &&& sapling_all_valid(byte_seqs(commitments@))
                    &&& old(self)@.frontier.size + commitments.len() > MAX_LEAVES
                    &&& final(self)@ == old(self)@
                },
            },
    {
        let r = self.frontier.append_all(commitments);
        proof {
            lemma_sapling_appended_all_size(old(self)@.frontier, byte_seqs(commitments@));
            assert(self@.marks == old(self)@.marks);
            assert(self@.frontier.size >= old(self)@.frontier.size);
            assert(self@.checkpoints =~= old(self)@.checkpoints);
            assert forall|i: int| 0 <= i < self@.checkpoints.len() implies {
                &&& (#[trigger] self@.checkpoints[i]).marks_len <= self@.marks.len()
                &&& self@.checkpoints[i].frontier.size <= self@.frontier.size
                &&& forall|k: int|
                    0 <= k < self@.checkpoints[i].marks_len ==> (#[trigger] self@.marks[k])
                        < self@.checkpoints[i].frontier.size
            } by {
                assert(self@.checkpoints[i] == old(self)@.checkpoints[i]);
            }
        }
        r
    }

    /// Marks the latest leaf, and returns its position; `None` in an empty tree.
    pub fn mark(&mut self) -> (r: Option<u64>)
        requires
            old(self).wf_unbounded(),
        ensures
            final(self).wf_unbounded(),
            final(self)@ == old(self)@.marked(),
            r == (if old(self)@.frontier.size == 0 {
                None
            } else {
                Some((old(self)@.frontier.size - 1) as u64)
            }),
    {
        let size = self.frontier.size();
        if size == 0 {
            return None;
        }
        let position: u64 = size - 1;
        let n = self.marks.len();
        if n == 0 || self.marks[n - 1] != position {
            self.marks.push(position);
            proof {
                assert(self@.checkpoints =~= old(self)@.checkpoints);
                assert(self@.marks =~= old(self)@.marks.push(position));
                assert forall|i: int| 0 <= i < n implies (#[trigger] old(self)@.marks[i]) < position by {
                    if i < n - 1 {
                        assert(old(self)@.marks[i] < old(self)@.marks[n - 1]);
                    }
                }
                assert forall|i: int| 0 <= i < self@.checkpoints.len() implies {
                    &&& (#[trigger] self@.checkpoints[i]).marks_len <= self@.marks.len()
                    &&& self@.checkpoints[i].frontier.size <= self@.frontier.size
                    &&& forall|k: int|
                        0 <= k < self@.checkpoints[i].marks_len ==> (#[trigger] self@.marks[k])
                            < self@.checkpoints[i].frontier.size
                } by {
                    assert(self@.checkpoints[i] == old(self)@.checkpoints[i]);
                    assert forall|k: int| 0 <= k < self@.checkpoints[i].marks_len implies (
                    #[trigger] self@.marks[k]) < self@.checkpoints[i].frontier.size by {
                        assert(self@.marks[k] == old(self)@.marks[k]);
                    }
                }
            }
        }
        Some(position)
    }

    /// Takes a checkpoint of the current state under `id`, unless `id` is not
    /// above the tag of the newest checkpoint.
    pub fn checkpoint(&mut self, id: u32) -> (taken: bool)
        requires
            old(self).wf(),
        ensures
            final(self).wf(),
            taken == old(self)@.accepts_checkpoint(id),
            taken ==> final(self)@ == old(self)@.checkpointed(id),
            !taken ==> final(self)@ == old(self)@,
    {
        let n = self.checkpoints.len();
        if n > 0 {
            assert(self@.checkpoints[n - 1] == self.checkpoints@[n - 1]@);
            if self.checkpoints[n - 1].id >= id {
                return false;
            }
        }
        let c = Checkpoint::new(id, self.frontier.snapshot(), self.marks.len());
        self.checkpoints.push(c);
        proof {
            let pushed = old(self)@.checkpoints.push(
                CheckpointModel {
                    id,
                    frontier: old(self)@.frontier,
                    marks_len: old(self)@.marks.len(),
                },
            );
            assert(self@.checkpoints =~= pushed);
            assert forall|i: int| 0 <= i < n implies (#[trigger] self@.checkpoints[i]).id < id by {
                if i < n - 1 {
                    assert(old(self)@.checkpoints[i].id < old(self)@.checkpoints[n - 1].id);
                }
            }
        }
        self.retire();
        true
    }

    /// Retires the oldest checkpoints until no more than `max_checkpoints`
    /// are within reach of a rewind. Their records stay until they are
    /// collected; positions stay marked, and the current state stays as it is.
    fn retire(&mut self)
        requires
            old(self).wf_unbounded(),
        ensures
            final(self).wf(),
            final(self)@ == old(self)@.retiring(),
    {
        let n = self.checkpoints.len();
        if n > self.max_checkpoints {
            let excess: usize = n - self.max_checkpoints;
            let kept = self.checkpoints.split_off(excess);
            let ghost oldest = self.checkpoints@;
            self.retired.append(&mut self.checkpoints);
            self.checkpoints = kept;
            proof {
                assert(self@.marks == old(self)@.marks);
                assert(self@.frontier == old(self)@.frontier);
                assert(self@.checkpoints =~= old(self)@.checkpoints.skip(excess as int));
                assert(checkpoint_views(oldest) =~= old(self)@.checkpoints.take(excess as int));
                assert(self@.retired =~= old(self)@.retired + old(self)@.checkpoints.take(
                    excess as int,
                ));
                assert forall|i: int| 0 <= i < self@.checkpoints.len() implies (
                #[trigger] self@.checkpoints[i]) == old(self)@.checkpoints[i + excess] by {}
                assert forall|i: int, j: int| 0 <= i < j < self@.checkpoints.len() implies {
                    &&& self@.checkpoints[i].id < self@.checkpoints[j].id
                    &&& self@.checkpoints[i].marks_len <= self@.checkpoints[j].marks_len
                    &&& self@.checkpoints[i].frontier.size <= self@.checkpoints[j].frontier.size
                } by {
                    assert(self@.checkpoints[i] == old(self)@.checkpoints[i + excess]);
                    assert(self@.checkpoints[j] == old(self)@.checkpoints[j + excess]);
                }
                assert forall|i: int| 0 <= i < self@.checkpoints.len() implies {
                    &&& (#[trigger] self@.checkpoints[i]).marks_len <= self@.marks.len()
                    &&& self@.checkpoints[i].frontier.size <= self@.frontier.size
                    &&& forall|k: int|
                        0 <= k < self@.checkpoints[i].marks_len ==> (#[trigger] self@.marks[k])
                            < self@.checkpoints[i].frontier.size
                } by {
                    assert(self@.checkpoints[i] == old(self)@.checkpoints[i + excess]);
                }
            }
        }
    }

    /// Discards the records of the checkpoints that no rewind can reach any
    /// more: those retired when newer checkpoints were taken, and any beyond
    /// the newest `max_checkpoints`. What a rewind can reach, the marked
    /// positions and the current state stay as they are.
    pub fn garbage_collect(&mut self)
        requires
            old(self).wf_unbounded(),
        ensures
            final(self).wf(),
            final(self)@ == old(self)@.collected(),
    {
        self.retire();
        self.retired.clear();
        proof {
            assert(self@.retired =~= Seq::empty());
        }
    }

    /// Puts the tree back to its newest checkpoint and removes that
    /// checkpoint; `false`, with the tree unchanged, where none is held.
    pub fn rewind(&mut self) -> (done: bool)
        requires
            old(self).wf(),
        ensures
            final(self).wf(),
            done == (old(self)@.checkpoints.len() > 0),
            final(self)@ == old(self)@.rewound(),
    {
        match self.checkpoints.pop() {
            Some(c) => {
                let ghost n = self.checkpoints@.len() as int;
                assert(c@ == old(self)@.checkpoints[n]);
                self.marks.truncate(c.marks_len);
                self.frontier = c.frontier;
                assert(self@.checkpoints =~= old(self)@.checkpoints.drop_last());
                assert(self@.marks =~= old(self)@.marks.take(c.marks_len as int));
                proof {
                    assert forall|i: int| 0 <= i < self@.checkpoints.len() implies {
                        &&& (#[trigger] self@.checkpoints[i]).marks_len <= self@.marks.len()
                        &&& self@.checkpoints[i].frontier.size <= self@.frontier.size
                    } by {
                        assert(self@.checkpoints[i] == old(self)@.checkpoints[i]);
                    }
                }
                true
            },
            None => {
                assert(self@.checkpoints =~= old(self)@.checkpoints);
                false
            },
        }
    }

    /// The root as of `depth` checkpoints ago; `None` where fewer are held.
    pub fn root(&self, depth: usize) -> (r: Option<[u8; 32]>)
        ensures
            match r {
                Some(bytes) => self@.root_at(depth as nat) == Some(bytes@),
                None => self@.root_at(depth as nat).is_none(),
            },
    {
        let n = self.checkpoints.len();
        if depth == 0 {
            Some(self.frontier.root())
        } else if depth <= n {
            assert(self@.checkpoints[n - depth] == self.checkpoints@[n - depth]@);
            Some(self.checkpoints[n - depth].frontier.root())
        } else {
            None
        }
    }
}

} // verus!
