//! The change representation a selection is remapped through after an edit.
//!
//! A change set is a run of operations over the old document, in order:
//! retain `n` characters, delete `n` characters, or insert `n` characters.
//! The selection never inspects more of it than the single mapping call
//! [`ChangeSet::map_pos`], which translates an old character offset to a new
//! one with "stick to the text that follows an insertion" affinity: an offset
//! sitting exactly on an insertion point ends up after the inserted text, and
//! an offset inside a deleted span collapses to the deletion point.
use vstd::prelude::*;

verus! {

/// One primitive edit operation; lengths are counted in characters.
#[derive(Debug, Clone, Copy, PartialEq, Eq)]
pub enum Operation {
    Retain(usize),
    Delete(usize),
    Insert(usize),
}

/// A batch of edits over a document, as an ordered run of operations.
#[derive(Debug, Clone, PartialEq, Eq)]
pub struct ChangeSet {
    ops: Vec<Operation>,
}

/// Length of the document the operations consume.
pub open spec fn old_len(ops: Seq<Operation>) -> int
    decreases ops.len(),
{
    if ops.len() == 0 {
        0
    } else {
        (match ops[0] {
            Operation::Retain(n) => n as int,
            Operation::Delete(n) => n as int,
            Operation::Insert(_) => 0int,
        }) + old_len(ops.skip(1))
    }
}

/// Length of the document the operations produce.
pub open spec fn new_len(ops: Seq<Operation>) -> int
    decreases ops.len(),
{
    if ops.len() == 0 {
        0
    } else {
        (match ops[0] {
            Operation::Retain(n) => n as int,
            Operation::Delete(_) => 0int,
            Operation::Insert(n) => n as int,
        }) + new_len(ops.skip(1))
    }
}

/// Where an old offset lands after the operations, with stick-after-insertion
/// affinity. Offsets past the consumed length keep their distance beyond it.
pub open spec fn map_pos_spec(ops: Seq<Operation>, pos: int) -> int
    decreases ops.len(),
{
    if ops.len() == 0 {
        pos
    } else {
        match ops[0] {
            Operation::Retain(n) => if pos < n {
                pos
            } else {
                n + map_pos_spec(ops.skip(1), pos - n)
            },
            Operation::Delete(n) => if pos < n {
                0
            } else {
                map_pos_spec(ops.skip(1), pos - n)
            },
            Operation::Insert(n) => n + map_pos_spec(ops.skip(1), pos),
        }
    }
}

/// A mapped offset never lands past the produced document length.
pub proof fn lemma_map_pos_bounded(ops: Seq<Operation>, pos: int)
    requires
        0 <= pos <= old_len(ops),
    ensures
        0 <= map_pos_spec(ops, pos) <= new_len(ops),
    decreases ops.len(),
{
    if ops.len() > 0 {
        lemma_new_len_nonneg(ops.skip(1));
        lemma_old_len_nonneg(ops.skip(1));
        match ops[0] {
            Operation::Retain(n) => {
                if pos >= n {
                    lemma_map_pos_bounded(ops.skip(1), pos - n);
                }
            },
            Operation::Delete(n) => {
                if pos >= n {
                    lemma_map_pos_bounded(ops.skip(1), pos - n);
                }
            },
            Operation::Insert(_) => {
                lemma_map_pos_bounded(ops.skip(1), pos);
            },
        }
    }
}

impl ChangeSet {
    /// The run of operations, as a mathematical sequence.
    pub closed spec fn ops_seq(&self) -> Seq<Operation> {
        self.ops@
    }

    /// A change set usable for mapping: the produced document length fits the
    /// machine's offset type.
    pub open spec fn wf(&self) -> bool {
        new_len(self.ops_seq()) <= usize::MAX
    }

    pub open spec fn spec_is_empty(&self) -> bool {
        self.ops_seq().len() == 0
    }

    /// The identity change set: no edits at all.
    pub fn empty() -> (r: ChangeSet)
        ensures
            r.spec_is_empty(),
            r.wf(),
    {
        let r = ChangeSet { ops: Vec::new() };
        proof {
            assert(new_len(r.ops@) == 0);
        }
        r
    }

    pub fn new(ops: Vec<Operation>) -> (r: ChangeSet)
        requires
            new_len(ops@) <= usize::MAX,
        ensures
            r.ops_seq() == ops@,
            r.wf(),
    {
        ChangeSet { ops }
    }

    /// `true` when the change set holds no operations at all.
    pub fn is_empty(&self) -> (r: bool)
        ensures
            r == self.spec_is_empty(),
    {
        self.ops.len() == 0
    }

    /// Map an old character offset to its new position after the edits.
    pub fn map_pos(&self, pos: usize) -> (r: usize)
        requires
            self.wf(),
            pos <= old_len(self.ops_seq()),
        ensures
            r == map_pos_spec(self.ops_seq(), pos as int),
    {
        let ghost all_ops = self.ops@;
        let mut rel: usize = pos;
        let mut new_prefix: usize = 0;
        let mut i: usize = 0;
        proof {
            assert(all_ops.skip(0) =~= all_ops);
        }
        while i < self.ops.len()
            invariant
                i <= all_ops.len(),
                self.ops@ == all_ops,
                new_len(all_ops) <= usize::MAX,
                rel <= old_len(all_ops.skip(i as int)),
                new_prefix + new_len(all_ops.skip(i as int)) == new_len(all_ops),
                map_pos_spec(all_ops, pos as int) == new_prefix + map_pos_spec(
                    all_ops.skip(i as int),
                    rel as int,
                ),
            decreases all_ops.len() - i,
        {
            let ghost rest = all_ops.skip(i as int);
            proof {
                assert(rest[0] == all_ops[i as int]);
                assert(rest.skip(1) =~= all_ops.skip(i as int + 1));
                lemma_old_len_nonneg(rest.skip(1));
                lemma_new_len_nonneg(rest.skip(1));
            }
            match self.ops[i] {
                Operation::Retain(n) => {
                    if rel < n {
                        proof {
                            lemma_map_pos_bounded(rest, rel as int);
                        }
                        return new_prefix + rel;
                    }
                    rel = rel - n;
                    new_prefix = new_prefix + n;
                },
                Operation::Delete(n) => {
                    if rel < n {
                        return new_prefix;
                    }
                    rel = rel - n;
                },
                Operation::Insert(n) => {
                    new_prefix = new_prefix + n;
                },
            }
            i = i + 1;
        }
        proof {
            assert(all_ops.skip(i as int) =~= Seq::<Operation>::empty());
        }
        new_prefix + rel
    }
}

/// Both length measures are non-negative.
pub proof fn lemma_old_len_nonneg(ops: Seq<Operation>)
    ensures
        old_len(ops) >= 0,
    decreases ops.len(),
{
    if ops.len() > 0 {
        lemma_old_len_nonneg(ops.skip(1));
    }
}

pub proof fn lemma_new_len_nonneg(ops: Seq<Operation>)
    ensures
        new_len(ops) >= 0,
    decreases ops.len(),
{
    if ops.len() > 0 {
        lemma_new_len_nonneg(ops.skip(1));
    }
}

} // verus!
