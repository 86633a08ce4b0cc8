//! A single selection range: an anchor/head pair of character offsets.
//!
//! The head is the side the user moves when extending the selection; the
//! anchor is the side that stays put. Either may precede the other, and both
//! may coincide for a zero-width range (a bare cursor). Ranges are inclusive
//! on the left and exclusive on the right, regardless of anchor/head order.
use vstd::prelude::*;

use ropey::RopeSlice;

use crate::changes::ChangeSet;
use crate::changes::Operation;
use crate::changes::lemma_map_pos_bounded;
use crate::changes::map_pos_spec;
use crate::changes::old_len;
use crate::text::rope_chars;
use crate::text::rope_slice_string;

verus! {

/// Absolute difference of two offsets.
pub fn abs_difference(x: usize, y: usize) -> (r: usize)
    ensures
        r == if x < y { y - x } else { x - y },
{
    if x < y {
        y - x
    } else {
        x - y
    }
}

/// A single selection range.
///
/// - `anchor`: the side that does not move when extending.
/// - `head`: the side moved when extending.
/// - `horiz`: cached target visual column for vertical movement; advisory
///   only, never part of any invariant.
#[derive(Debug, Clone, Copy, PartialEq, Eq)]
pub struct Range {
    pub anchor: usize,
    pub head: usize,
    pub horiz: Option<u32>,
}

impl Range {
    /// Smaller of anchor and head: the left edge of the span.
    pub open spec fn spec_from(&self) -> usize {
        if self.anchor < self.head {
            self.anchor
        } else {
            self.head
        }
    }

    /// Larger of anchor and head: the right edge of the span.
    pub open spec fn spec_to(&self) -> usize {
        if self.anchor < self.head {
            self.head
        } else {
            self.anchor
        }
    }

    /// Overlap rule: two ranges overlap iff they share a left edge, or their
    /// spans properly intersect. A zero-width range overlaps a range whose
    /// left edge it sits on, while two non-zero-width ranges that merely touch
    /// at an edge do not overlap.
    pub open spec fn spec_overlaps(&self, other: &Range) -> bool {
        self.spec_from() == other.spec_from() || (self.spec_to() > other.spec_from()
            && other.spec_to() > self.spec_from())
    }

    pub fn new(anchor: usize, head: usize) -> (r: Range)
        ensures
            r == (Range { anchor, head, horiz: None }),
    {
        Range { anchor, head, horiz: None }
    }

    /// A zero-width range (cursor) at `head`.
    pub fn point(head: usize) -> (r: Range)
        ensures
            r == (Range { anchor: head, head, horiz: None }),
    {
        Range::new(head, head)
    }

    /// Start of the range.
    pub fn from(&self) -> (r: usize)
        ensures
            r == self.spec_from(),
    {
        if self.anchor < self.head {
            self.anchor
        } else {
            self.head
        }
    }

    /// End of the range.
    pub fn to(&self) -> (r: usize)
        ensures
            r == self.spec_to(),
    {
        if self.anchor < self.head {
            self.head
        } else {
            self.anchor
        }
    }

    /// `true` when head and anchor are at the same position.
    pub fn is_empty(&self) -> (r: bool)
        ensures
            r == (self.anchor == self.head),
    {
        self.anchor == self.head
    }

    /// Check two ranges for overlap under the rule of [`Range::spec_overlaps`].
    pub fn overlaps(&self, other: &Range) -> (r: bool)
        ensures
            r == self.spec_overlaps(other),
    {
        self.from() == other.from() || (self.to() > other.from() && other.to() > self.from())
    }

    /// Half-open containment: `start() <= pos < end()`.
    pub fn contains(&self, pos: usize) -> (r: bool)
        ensures
            r == (self.spec_from() <= pos && pos < self.spec_to()),
    {
        self.from() <= pos && pos < self.to()
    }

    /// Where this range lands after a set of changes: both ends remapped
    /// with stick-after-insertion affinity, the horizontal cache forgotten.
    pub open spec fn spec_map(&self, ops: Seq<Operation>) -> Range {
        Range {
            anchor: map_pos_spec(ops, self.anchor as int) as usize,
            head: map_pos_spec(ops, self.head as int) as usize,
            horiz: None,
        }
    }

    /// Map a range through a set of changes, giving a new range at the same
    /// position after the changes are applied. The horizontal cache is reset
    /// even when the offsets are unchanged, because the visual column may
    /// have shifted under an edit earlier in the text.
    pub fn map(self, changes: &ChangeSet) -> (r: Range)
        requires
            changes.wf(),
            self.anchor <= old_len(changes.ops_seq()),
            self.head <= old_len(changes.ops_seq()),
        ensures
            r == self.spec_map(changes.ops_seq()),
            r.anchor == map_pos_spec(changes.ops_seq(), self.anchor as int),
            r.head == map_pos_spec(changes.ops_seq(), self.head as int),
            r.horiz is None,
    {
        proof {
            lemma_map_pos_bounded(changes.ops_seq(), self.anchor as int);
            lemma_map_pos_bounded(changes.ops_seq(), self.head as int);
        }
        let anchor = changes.map_pos(self.anchor);
        let head = changes.map_pos(self.head);
        Range { anchor, head, horiz: None }
    }

    /// The slice of the text source between the range's start and end.
    pub fn fragment(&self, text: RopeSlice) -> (r: String)
        requires
            self.spec_to() <= rope_chars(text).len(),
        ensures
            r@ == rope_chars(text).subrange(self.spec_from() as int, self.spec_to() as int),
    {
        rope_slice_string(text, self.from(), self.to())
    }

    /// Extend the range to cover at least `from..=to`, preserving the
    /// direction of the original range and forgetting the horizontal cache.
    pub fn extend(&self, from: usize, to: usize) -> (r: Range)
        requires
            from <= to,
        ensures
            r.horiz is None,
            self.anchor <= self.head ==> r.anchor <= r.head && r.anchor == if from
                < self.anchor { from } else { self.anchor } && r.head == if to > self.head {
                to
            } else {
                self.head
            },
            self.anchor > self.head ==> r.anchor >= r.head && r.anchor == if to > self.anchor {
                to
            } else {
                self.anchor
            } && r.head == if from < self.head { from } else { self.head },
            r.spec_from() <= from && to <= r.spec_to(),
            r.spec_from() <= self.spec_from() && self.spec_to() <= r.spec_to(),
    {
        if self.anchor <= self.head {
            Range {
                anchor: if self.anchor < from {
                    self.anchor
                } else {
                    from
                },
                head: if self.head > to {
                    self.head
                } else {
                    to
                },
                horiz: None,
            }
        } else {
            Range {
                anchor: if self.anchor > to {
                    self.anchor
                } else {
                    to
                },
                head: if self.head < from {
                    self.head
                } else {
                    from
                },
                horiz: None,
            }
        }
    }
}

} // verus!
