//! A selection: an ordered, non-empty collection of ranges plus the index of
//! the primary range.
//!
//! Every public constructor and mutator returns a value satisfying the
//! selection invariant: the ranges are sorted by start, pairwise
//! non-overlapping under the rule of [`Range::spec_overlaps`], and the
//! primary index is in bounds. Overlapping inputs are merged by the
//! normalization pass, which remembers the primary range by value, sorts,
//! relocates the primary, then sweeps left to right merging overlapping
//! neighbours.
use ropey::RopeSlice;
use vstd::multiset::Multiset;
use vstd::pervasive::VecAdditionalExecFns;
use vstd::prelude::*;

use crate::changes::ChangeSet;
use crate::changes::map_pos_spec;
use crate::changes::old_len;
use crate::range::Range;
use crate::text::rope_chars;

verus! {

broadcast use vstd::seq_lib::group_to_multiset_ensures;

/// Weak sortedness by the left edge of the span.
pub open spec fn sorted_by_from(rs: Seq<Range>) -> bool {
    forall|i: int, j: int|
        0 <= i < j < rs.len() ==> #[trigger] rs[i].spec_from() <= #[trigger] rs[j].spec_from()
}

/// The selection invariant on a range list: starts strictly increase and no
/// range reaches past the start of the next, which makes the ranges pairwise
/// non-overlapping under the rule of [`Range::spec_overlaps`].
pub open spec fn ranges_normalized(rs: Seq<Range>) -> bool {
    forall|i: int, j: int|
        0 <= i < j < rs.len() ==> (#[trigger] rs[i]).spec_from() < (#[trigger] rs[j]).spec_from()
            && rs[i].spec_to() <= rs[j].spec_from()
}

/// `outer` spans at least the text `inner` spans.
pub open spec fn covers(outer: Range, inner: Range) -> bool {
    outer.spec_from() <= inner.spec_from() && inner.spec_to() <= outer.spec_to()
}

/// Some range of `s` spans at least the text `x` spans.
pub open spec fn covered_by(s: Seq<Range>, x: Range) -> bool {
    exists|p: int| 0 <= p < s.len() && covers(#[trigger] s[p], x)
}

/// `ms` is a pointwise image of `input` under the function `f`.
pub open spec fn transformed_by<F: Fn(Range) -> Range>(
    f: F,
    input: Seq<Range>,
    ms: Seq<Range>,
) -> bool {
    ms.len() == input.len() && forall|i: int|
        0 <= i < ms.len() ==> #[trigger] f.ensures((input[i],), ms[i])
}

/// A normalized list holds no two overlapping ranges.
pub proof fn lemma_normalized_no_overlap(rs: Seq<Range>)
    requires
        ranges_normalized(rs),
    ensures
        forall|i: int, j: int|
            #![trigger rs[i], rs[j]]
            0 <= i < rs.len() && 0 <= j < rs.len() && i != j ==> !rs[i].spec_overlaps(&rs[j]),
{
}

/// The range that replaces `prev` when the incoming `cur` is merged into it:
/// the merged span runs from `prev`'s start to the farther of the two ends,
/// the direction is taken from the incoming range, and the horizontal cache
/// is kept from `prev`.
pub open spec fn merged_range(prev: Range, cur: Range) -> Range {
    let f = prev.spec_from();
    let t = if cur.spec_to() > prev.spec_to() {
        cur.spec_to()
    } else {
        prev.spec_to()
    };
    if cur.anchor > cur.head {
        Range { anchor: t, head: f, horiz: prev.horiz }
    } else {
        Range { anchor: f, head: t, horiz: prev.horiz }
    }
}

/// The left-to-right merge sweep over a list sorted by start: `last` is the
/// range most recently placed in the output, `rest` the ranges still to come.
pub open spec fn merge_from(last: Range, rest: Seq<Range>) -> Seq<Range>
    decreases rest.len(),
{
    if rest.len() == 0 {
        seq![last]
    } else if rest[0].spec_overlaps(&last) {
        merge_from(merged_range(last, rest[0]), rest.skip(1))
    } else {
        seq![last] + merge_from(rest[0], rest.skip(1))
    }
}

/// What normalization produces on a list already sorted by start.
pub open spec fn merge_ranges(rs: Seq<Range>) -> Seq<Range> {
    if rs.len() == 0 {
        Seq::empty()
    } else {
        merge_from(rs[0], rs.skip(1))
    }
}

/// Index of the first range with the smallest start.
pub open spec fn min_from_index(rs: Seq<Range>) -> int
    decreases rs.len(),
{
    if rs.len() <= 1 {
        0
    } else {
        let m = min_from_index(rs.skip(1)) + 1;
        if rs[m].spec_from() < rs[0].spec_from() {
            m
        } else {
            0
        }
    }
}

/// The sort normalization uses: repeatedly move the first range with the
/// smallest start to the front, so ranges with equal starts keep their
/// relative order.
pub open spec fn sort_by_from_spec(rs: Seq<Range>) -> Seq<Range>
    decreases rs.len(),
{
    if rs.len() == 0 {
        Seq::empty()
    } else {
        let m0 = min_from_index(rs);
        let m = if 0 <= m0 < rs.len() {
            m0
        } else {
            0int
        };
        seq![rs[m]] + sort_by_from_spec(rs.remove(m))
    }
}

/// Index of the first range equal to `x`.
pub open spec fn first_eq_index(rs: Seq<Range>, x: Range) -> int
    decreases rs.len(),
{
    if rs.len() == 0 {
        0
    } else if rs[0] == x {
        0
    } else {
        1 + first_eq_index(rs.skip(1), x)
    }
}

/// Where the primary index lands after the merge sweep: `last` is the range
/// most recently placed in the output, `i` how many output entries exist,
/// `prim` the primary index so far; every collapse at or before the primary
/// steps it down by one.
pub open spec fn final_primary(last: Range, rest: Seq<Range>, i: int, prim: int) -> int
    decreases rest.len(),
{
    if rest.len() == 0 {
        prim
    } else if rest[0].spec_overlaps(&last) {
        final_primary(
            merged_range(last, rest[0]),
            rest.skip(1),
            i,
            if i <= prim {
                prim - 1
            } else {
                prim
            },
        )
    } else {
        final_primary(rest[0], rest.skip(1), i + 1, prim)
    }
}

/// The primary index normalization leaves on a list already sorted by
/// start, starting from the relocated index `prim`.
pub open spec fn normalized_primary(rs: Seq<Range>, prim: int) -> int {
    if rs.len() == 0 {
        0
    } else {
        final_primary(rs[0], rs.skip(1), 1, prim)
    }
}

/// What the general constructor returns: the range list and the primary
/// index. A single range is taken as it stands with the primary forced to
/// 0; otherwise the list is sorted, the primary relocated to the first
/// range equal to the remembered one, and the sweep merges and tracks it.
pub open spec fn normalized_selection(rs: Seq<Range>, primary_index: int) -> (Seq<Range>, int) {
    if rs.len() == 1 {
        (rs, 0int)
    } else {
        let sorted = sort_by_from_spec(rs);
        (
            merge_ranges(sorted),
            normalized_primary(sorted, first_eq_index(sorted, rs[primary_index])),
        )
    }
}

/// [`min_from_index`] points at the first range with the smallest start.
pub proof fn lemma_min_from_index_props(rs: Seq<Range>)
    requires
        rs.len() > 0,
    ensures
        0 <= min_from_index(rs) < rs.len(),
        forall|p: int|
            0 <= p < rs.len() ==> rs[min_from_index(rs)].spec_from() <= (
            #[trigger] rs[p]).spec_from(),
        forall|p: int|
            0 <= p < min_from_index(rs) ==> (#[trigger] rs[p]).spec_from()
                > rs[min_from_index(rs)].spec_from(),
    decreases rs.len(),
{
    if rs.len() > 1 {
        let tail = rs.skip(1);
        lemma_min_from_index_props(tail);
        let mt = min_from_index(tail);
        let m = min_from_index(rs);
        assert(tail[mt] == rs[mt + 1]);
        assert forall|p: int|
            0 <= p < rs.len() implies rs[m].spec_from() <= (#[trigger] rs[p]).spec_from() by {
            if p > 0 {
                assert(tail[p - 1] == rs[p]);
                assert(tail[mt].spec_from() <= tail[p - 1].spec_from());
            }
        }
        assert forall|p: int|
            0 <= p < m implies (#[trigger] rs[p]).spec_from() > rs[m].spec_from() by {
            if p > 0 {
                assert(tail[p - 1] == rs[p]);
            }
        }
    }
}

/// [`first_eq_index`] points at the first range equal to `x`.
pub proof fn lemma_first_eq_index_props(rs: Seq<Range>, x: Range)
    requires
        rs.contains(x),
    ensures
        0 <= first_eq_index(rs, x) < rs.len(),
        rs[first_eq_index(rs, x)] == x,
        forall|p: int| 0 <= p < first_eq_index(rs, x) ==> rs[p] != x,
    decreases rs.len(),
{
    if rs.len() > 0 && rs[0] != x {
        let k = choose|k: int| 0 <= k < rs.len() && rs[k] == x;
        assert(rs.skip(1)[k - 1] == rs[k]);
        assert(rs.skip(1).contains(rs[k]));
        lemma_first_eq_index_props(rs.skip(1), x);
        assert forall|p: int| 0 <= p < first_eq_index(rs, x) implies rs[p] != x by {
            if p > 0 {
                assert(rs.skip(1)[p - 1] == rs[p]);
            }
        }
    }
}

/// The merge sweep is the identity on an already-normalized list.
pub proof fn lemma_merge_from_normalized(last: Range, rest: Seq<Range>)
    requires
        ranges_normalized(seq![last] + rest),
    ensures
        merge_from(last, rest) == seq![last] + rest,
    decreases rest.len(),
{
    let whole = seq![last] + rest;
    if rest.len() == 0 {
        assert(merge_from(last, rest) =~= whole);
    } else {
        assert(whole[0] == last);
        assert(whole[1] == rest[0]);
        assert(last.spec_from() < rest[0].spec_from());
        assert(last.spec_to() <= rest[0].spec_from());
        assert(!rest[0].spec_overlaps(&last));
        assert forall|a: int, b: int|
            0 <= a < b < rest.len() implies (#[trigger] rest[a]).spec_from() < (
        #[trigger] rest[b]).spec_from() && rest[a].spec_to() <= rest[b].spec_from() by {
            assert(whole[a + 1] == rest[a]);
            assert(whole[b + 1] == rest[b]);
        }
        assert(seq![rest[0]] + rest.skip(1) =~= rest);
        lemma_merge_from_normalized(rest[0], rest.skip(1));
        assert(seq![last] + (seq![rest[0]] + rest.skip(1)) =~= whole);
    }
}

/// Normalization is the identity on an already-normalized list.
pub proof fn lemma_merge_ranges_normalized(rs: Seq<Range>)
    requires
        ranges_normalized(rs),
        rs.len() > 0,
    ensures
        merge_ranges(rs) == rs,
{
    assert(seq![rs[0]] + rs.skip(1) =~= rs);
    lemma_merge_from_normalized(rs[0], rs.skip(1));
}

/// Position `pos` lies inside some range of the list, under half-open
/// containment.
pub open spec fn pos_selected(rs: Seq<Range>, pos: int) -> bool {
    exists|i: int|
        0 <= i < rs.len() && (#[trigger] rs[i]).spec_from() <= pos < rs[i].spec_to()
}

/// The merge sweep neither gains nor loses a selected position: merging is
/// only ever applied to overlapping ranges, whose spans form one contiguous
/// span.
pub proof fn lemma_merge_from_positions(last: Range, rest: Seq<Range>, pos: int)
    requires
        forall|q: int|
            0 <= q < rest.len() ==> last.spec_from() <= (#[trigger] rest[q]).spec_from(),
        sorted_by_from(rest),
    ensures
        pos_selected(merge_from(last, rest), pos) <==> pos_selected(seq![last] + rest, pos),
    decreases rest.len(),
{
    let whole = seq![last] + rest;
    if rest.len() == 0 {
        assert(whole =~= seq![last]);
    } else {
        let tail = rest.skip(1);
        assert forall|q: int| 0 <= q < tail.len() implies tail[q] == rest[q + 1] by {}
        assert(sorted_by_from(tail));
        if rest[0].spec_overlaps(&last) {
            let m = merged_range(last, rest[0]);
            assert(m.spec_from() == last.spec_from());
            assert(m.spec_to() >= last.spec_to() && m.spec_to() >= rest[0].spec_to());
            assert(m.spec_to() == last.spec_to() || m.spec_to() == rest[0].spec_to());
            lemma_merge_from_positions(m, tail, pos);
            let sub = seq![m] + tail;
            assert forall|q: int| 0 <= q < sub.len() implies sub[q] == (if q == 0 {
                m
            } else {
                rest[q]
            }) by {}
            // the merged span is exactly the union of the two spans it replaces
            if pos_selected(sub, pos) {
                let i = choose|i: int|
                    0 <= i < sub.len() && (#[trigger] sub[i]).spec_from() <= pos
                        < sub[i].spec_to();
                if i == 0 {
                    if pos < last.spec_to() {
                        assert(whole[0].spec_from() <= pos < whole[0].spec_to());
                    } else {
                        assert(rest[0].spec_from() < last.spec_to() || rest[0].spec_from()
                            == last.spec_from());
                        assert(whole[1].spec_from() <= pos < whole[1].spec_to());
                    }
                } else {
                    assert(whole[i + 1].spec_from() <= pos < whole[i + 1].spec_to());
                }
                assert(pos_selected(whole, pos));
            }
            if pos_selected(whole, pos) {
                let i = choose|i: int|
                    0 <= i < whole.len() && (#[trigger] whole[i]).spec_from() <= pos
                        < whole[i].spec_to();
                if i <= 1 {
                    assert(sub[0].spec_from() <= pos < sub[0].spec_to());
                } else {
                    assert(sub[i - 1].spec_from() <= pos < sub[i - 1].spec_to());
                }
                assert(pos_selected(sub, pos));
            }
        } else {
            lemma_merge_from_positions(rest[0], tail, pos);
            let sub = seq![rest[0]] + tail;
            assert(sub =~= rest);
            let joined = seq![last] + merge_from(rest[0], tail);
            assert(merge_from(last, rest) == joined);
            if pos_selected(joined, pos) {
                let i = choose|i: int|
                    0 <= i < joined.len() && (#[trigger] joined[i]).spec_from() <= pos
                        < joined[i].spec_to();
                if i == 0 {
                    assert(whole[0].spec_from() <= pos < whole[0].spec_to());
                } else {
                    assert(pos_selected(merge_from(rest[0], tail), pos)) by {
                        assert(merge_from(rest[0], tail)[i - 1] == joined[i]);
                    }
                    let q = choose|q: int|
                        0 <= q < rest.len() && (#[trigger] rest[q]).spec_from() <= pos
                            < rest[q].spec_to();
                    assert(whole[q + 1].spec_from() <= pos < whole[q + 1].spec_to());
                }
                assert(pos_selected(whole, pos));
            }
            if pos_selected(whole, pos) {
                let i = choose|i: int|
                    0 <= i < whole.len() && (#[trigger] whole[i]).spec_from() <= pos
                        < whole[i].spec_to();
                if i == 0 {
                    assert(joined[0].spec_from() <= pos < joined[0].spec_to());
                } else {
                    assert(rest[i - 1].spec_from() <= pos < rest[i - 1].spec_to());
                    assert(pos_selected(rest, pos));
                    let j = choose|j: int|
                        0 <= j < merge_from(rest[0], tail).len() && (#[trigger] merge_from(
                            rest[0],
                            tail,
                        )[j]).spec_from() <= pos < merge_from(rest[0], tail)[j].spec_to();
                    assert(joined[j + 1].spec_from() <= pos < joined[j + 1].spec_to());
                }
                assert(pos_selected(joined, pos));
            }
        }
    }
}

/// Law: on a list sorted by start, the merge pass keeps exactly the selected
/// positions — no position is gained or lost.
pub proof fn lemma_merge_preserves_positions(rs: Seq<Range>, pos: int)
    requires
        sorted_by_from(rs),
    ensures
        pos_selected(merge_ranges(rs), pos) <==> pos_selected(rs, pos),
{
    if rs.len() > 0 {
        assert forall|q: int|
            0 <= q < rs.skip(1).len() implies rs[0].spec_from() <= (
        #[trigger] rs.skip(1)[q]).spec_from() by {
            assert(rs.skip(1)[q] == rs[q + 1]);
        }
        assert(sorted_by_from(rs.skip(1))) by {
            assert forall|a: int, b: int|
                0 <= a < b < rs.skip(1).len() implies (#[trigger] rs.skip(1)[a]).spec_from()
                    <= (#[trigger] rs.skip(1)[b]).spec_from() by {
                assert(rs.skip(1)[a] == rs[a + 1]);
                assert(rs.skip(1)[b] == rs[b + 1]);
            }
        }
        lemma_merge_from_positions(rs[0], rs.skip(1), pos);
        assert(seq![rs[0]] + rs.skip(1) =~= rs);
    }
}

/// A selection consists of one or more selection ranges.
#[derive(Debug, Clone, PartialEq, Eq)]
pub struct Selection {
    ranges: Vec<Range>,
    primary_index: usize,
}

impl View for Selection {
    type V = Seq<Range>;

    closed spec fn view(&self) -> Seq<Range> {
        self.ranges@
    }
}

impl Selection {
    pub closed spec fn spec_primary_index(&self) -> int {
        self.primary_index as int
    }

    /// The selection invariant: non-empty, sorted, non-overlapping, primary
    /// index in bounds.
    pub open spec fn wf(&self) -> bool {
        self@.len() > 0 && 0 <= self.spec_primary_index() < self@.len() && ranges_normalized(
            self@,
        )
    }

    pub open spec fn spec_primary(&self) -> Range {
        self@[self.spec_primary_index()]
    }

    /// The primary range.
    pub fn primary(&self) -> (r: Range)
        requires
            self.wf(),
        ensures
            r == self.spec_primary(),
    {
        self.ranges[self.primary_index]
    }

    /// The head of the primary range.
    pub fn cursor(&self) -> (r: usize)
        requires
            self.wf(),
        ensures
            r == self.spec_primary().head,
    {
        self.primary().head
    }

    /// Collapse to a selection holding only the primary range.
    pub fn into_single(self) -> (s: Selection)
        requires
            self.wf(),
        ensures
            s.wf(),
            s@.len() == 1,
            s@[0] == self.spec_primary(),
            s.spec_primary_index() == 0,
    {
        if self.ranges.len() == 1 {
            self
        } else {
            let r = self.ranges[self.primary_index];
            Selection { ranges: vec![r], primary_index: 0 }
        }
    }

    /// Append a range (it becomes primary going into normalization) and
    /// renormalize.
    pub fn push(self, range: Range) -> (s: Selection)
        requires
            self.wf(),
        ensures
            s.wf(),
            forall|x: Range| (self@.contains(x) || x == range) ==> #[trigger] covered_by(s@, x),
            covers(s@[s.spec_primary_index()], range),
            s@ == normalized_selection(self@.push(range), self@.len() as int).0,
            s.spec_primary_index() == normalized_selection(
                self@.push(range),
                self@.len() as int,
            ).1,
    {
        let mut ranges = self.ranges;
        let index = ranges.len();
        ranges.push(range);
        let ghost all = ranges@;
        let s = Self::normalize(ranges, index);
        proof {
            assert(all == self@.push(range));
            assert(all[index as int] == range);
            assert(all.len() >= 2);
            assert forall|x: Range| self@.contains(x) || x == range implies #[trigger] covered_by(
                s@,
                x,
            ) by {
                if self@.contains(x) {
                    let i0 = choose|i0: int| 0 <= i0 < self@.len() && self@[i0] == x;
                    assert(all[i0] == x);
                } else {
                    assert(all[all.len() - 1] == x);
                }
                assert(all.contains(x));
            }
        }
        s
    }

    /// Map the selection over a set of changes, adjusting each range to its
    /// position after the edits. An empty change set is the identity: the
    /// selection comes back equal, without reconstructing the ranges.
    pub fn map(self, changes: &ChangeSet) -> (s: Selection)
        requires
            self.wf(),
            !changes.spec_is_empty() ==> changes.wf() && forall|i: int|
                0 <= i < self@.len() ==> (#[trigger] self@[i]).anchor <= old_len(changes.ops_seq())
                    && self@[i].head <= old_len(changes.ops_seq()),
        ensures
            s.wf(),
            changes.spec_is_empty() ==> s@ == self@ && s.spec_primary_index()
                == self.spec_primary_index(),
            !changes.spec_is_empty() ==> forall|i: int|
                0 <= i < self@.len() ==> covered_by(
                    s@,
                    (#[trigger] self@[i]).spec_map(changes.ops_seq()),
                ),
            !changes.spec_is_empty() ==> covers(
                s@[s.spec_primary_index()],
                self.spec_primary().spec_map(changes.ops_seq()),
            ),
            !changes.spec_is_empty() ==> ({
                let ms = self@.map_values(|r: Range| r.spec_map(changes.ops_seq()));
                s@ == normalized_selection(ms, self.spec_primary_index()).0
                    && s.spec_primary_index() == normalized_selection(
                    ms,
                    self.spec_primary_index(),
                ).1
            }),
    {
        if changes.is_empty() {
            return self;
        }
        let mut mapped: Vec<Range> = Vec::new();
        let mut i: usize = 0;
        while i < self.ranges.len()
            invariant
                i <= self@.len(),
                mapped@.len() == i,
                changes.wf(),
                !changes.spec_is_empty(),
                self.wf(),
                forall|j: int|
                    0 <= j < self@.len() ==> (#[trigger] self@[j]).anchor <= old_len(
                        changes.ops_seq(),
                    ) && self@[j].head <= old_len(changes.ops_seq()),
                forall|j: int|
                    0 <= j < i ==> #[trigger] mapped@[j] == self@[j].spec_map(changes.ops_seq()),
            decreases self@.len() - i,
        {
            mapped.push(self.ranges[i].map(changes));
            i = i + 1;
        }
        let ghost mseq = mapped@;
        proof {
            assert(mseq =~= self@.map_values(|r: Range| r.spec_map(changes.ops_seq())));
        }
        let s = Self::new(mapped, self.primary_index);
        proof {
            assert forall|j: int| #![trigger self@[j]] 0 <= j < self@.len() implies covered_by(
                s@,
                self@[j].spec_map(changes.ops_seq()),
            ) by {
                assert(mseq[j] == self@[j].spec_map(changes.ops_seq()));
                assert(mseq.contains(mseq[j]));
            }
        }
        s
    }

    /// The ranges, in sorted order.
    pub fn ranges(&self) -> (r: &[Range])
        ensures
            r@ == self@,
    {
        self.ranges.as_slice()
    }

    /// Index of the primary range.
    pub fn primary_index(&self) -> (r: usize)
        ensures
            r == self.spec_primary_index(),
    {
        self.primary_index
    }

    /// A selection holding a single range; trivially normalized.
    pub fn single(anchor: usize, head: usize) -> (s: Selection)
        ensures
            s.wf(),
            s@.len() == 1,
            s@[0] == (Range { anchor, head, horiz: None }),
            s.spec_primary_index() == 0,
    {
        Selection { ranges: vec![Range { anchor, head, horiz: None }], primary_index: 0 }
    }

    /// A selection holding a single cursor.
    pub fn point(pos: usize) -> (s: Selection)
        ensures
            s.wf(),
            s@.len() == 1,
            s@[0] == (Range { anchor: pos, head: pos, horiz: None }),
            s.spec_primary_index() == 0,
    {
        Selection::single(pos, pos)
    }

    /// Sort + merge normalization. Remembers the range at `primary_index` by
    /// value, sorts by start, relocates the primary as the first equal range,
    /// then sweeps left to right merging each range that overlaps the last
    /// output range into it, stepping the primary index down for every
    /// collapse at or before it.
    fn normalize(ranges: Vec<Range>, primary_index: usize) -> (s: Selection)
        requires
            ranges@.len() > 0,
            primary_index < ranges@.len(),
        ensures
            s.wf(),
            s@.len() <= ranges@.len(),
            forall|x: Range| ranges@.contains(x) ==> #[trigger] covered_by(s@, x),
            covers(s@[s.spec_primary_index()], ranges@[primary_index as int]),
            s@ == merge_ranges(sort_by_from_spec(ranges@)),
            s.spec_primary_index() == normalized_primary(
                sort_by_from_spec(ranges@),
                first_eq_index(sort_by_from_spec(ranges@), ranges@[primary_index as int]),
            ),
            forall|pos: int|
                #![trigger pos_selected(s@, pos)]
                pos_selected(s@, pos) <==> pos_selected(ranges@, pos),
            (sorted_by_from(ranges@) && primary_index == 0) ==> s@ == merge_ranges(ranges@)
                && s.spec_primary_index() == 0,
    {
        let ghost orig = ranges@;
        let primary = ranges[primary_index];
        let sorted = sort_ranges(ranges);
        let ghost sor = sorted@;
        proof {
            assert(orig.contains(orig[primary_index as int]));
            assert(orig.to_multiset().count(primary) > 0);
            assert(sor.to_multiset().count(primary) > 0);
            assert(sor.contains(primary));
        }
        let prim0 = find_first(&sorted, primary);
        let mut result: Vec<Range> = Vec::new();
        result.push(sorted[0]);
        let mut prim: usize = prim0;
        let mut k: usize = 1;
        proof {
            assert(result@[0] == sor[0]);
            assert(covers(result@[0], sor[0]));
            assert(merge_ranges(sor) == merge_from(sor[0], sor.skip(1)));
            assert(result@.take(result@.len() - 1) =~= Seq::<Range>::empty());
            assert(Seq::<Range>::empty() + merge_from(sor[0], sor.skip(1)) =~= merge_from(
                sor[0],
                sor.skip(1),
            ));
            if sorted_by_from(orig) && primary_index == 0 {
                assert(sor == orig);
                assert(sor[0] == primary);
            }
        }
        while k < sorted.len()
            invariant
                1 <= k <= sor.len(),
                sorted@ == sor,
                sorted_by_from(sor),
                1 <= result@.len() <= k,
                ranges_normalized(result@),
                forall|q: int|
                    k <= q < sor.len() ==> result@.last().spec_from() <= (
                    #[trigger] sor[q]).spec_from(),
                merge_ranges(sor) == result@.take(result@.len() - 1) + merge_from(
                    result@.last(),
                    sor.skip(k as int),
                ),
                prim < result@.len() + (sor.len() - k),
                normalized_primary(sor, prim0 as int) == final_primary(
                    result@.last(),
                    sor.skip(k as int),
                    result@.len() as int,
                    prim as int,
                ),
                prim0 >= k ==> prim == prim0 - (k - result@.len()),
                prim0 < k ==> prim < result@.len() && covers(result@[prim as int], sor[prim0 as int]),
                forall|q: int|
                    #![trigger sor[q]]
                    0 <= q < k ==> covered_by(result@, sor[q]),
                prim0 == 0 ==> prim == 0,
            decreases sor.len() - k,
        {
            let ghost pre = result@;
            let last_idx = result.len() - 1;
            let prev = result[last_idx];
            let cur = sorted[k];
            proof {
                assert(sor.skip(k as int)[0] == sor[k as int]);
                assert(sor.skip(k as int).skip(1) =~= sor.skip(k as int + 1));
            }
            if cur.overlaps(&prev) {
                let f = prev.from();
                let t = if cur.to() > prev.to() {
                    cur.to()
                } else {
                    prev.to()
                };
                let m = if cur.anchor > cur.head {
                    Range { anchor: t, head: f, horiz: prev.horiz }
                } else {
                    Range { anchor: f, head: t, horiz: prev.horiz }
                };
                proof {
                    assert(m == merged_range(prev, cur));
                    assert(covers(m, prev));
                    assert(covers(m, cur));
                }
                let ghost prim_pre = prim;
                if result.len() <= prim {
                    prim = prim - 1;
                }
                result.set(last_idx, m);
                proof {
                    assert(final_primary(prev, sor.skip(k as int), pre.len() as int, prim_pre as int)
                        == final_primary(
                        merged_range(prev, cur),
                        sor.skip(k as int + 1),
                        pre.len() as int,
                        prim as int,
                    ));
                    if prim0 >= k + 1 {
                        assert(prim_pre == prim0 - (k - pre.len()));
                        assert(pre.len() <= prim_pre);
                        assert(prim == prim0 - (k + 1 - result@.len()));
                    } else if prim0 == k {
                        assert(prim_pre == pre.len());
                        assert(prim == pre.len() - 1);
                        assert(covers(result@[prim as int], sor[prim0 as int]));
                    } else {
                        assert(prim_pre < pre.len());
                        assert(prim == prim_pre);
                        assert(covers(pre[prim as int], sor[prim0 as int]));
                        if prim == last_idx {
                            assert(result@[prim as int] == m);
                        } else {
                            assert(result@[prim as int] == pre[prim as int]);
                        }
                        assert(covers(result@[prim as int], sor[prim0 as int]));
                    }
                    assert(result@.take(result@.len() - 1) =~= pre.take(pre.len() - 1));
                    assert(result@.last() == m);
                    assert(merge_from(prev, sor.skip(k as int)) == merge_from(
                        merged_range(prev, cur),
                        sor.skip(k as int + 1),
                    ));
                    assert forall|q: int| #![trigger sor[q]] 0 <= q < k + 1 implies covered_by(
                        result@,
                        sor[q],
                    ) by {
                        if q < k {
                            let p0 = choose|p: int|
                                0 <= p < pre.len() && covers(#[trigger] pre[p], sor[q]);
                            assert(covers(result@[p0], sor[q]));
                        } else {
                            assert(covers(result@[result@.len() - 1], sor[q]));
                        }
                    }
                }
            } else {
                result.push(cur);
                proof {
                    assert(final_primary(prev, sor.skip(k as int), pre.len() as int, prim as int)
                        == final_primary(
                        cur,
                        sor.skip(k as int + 1),
                        pre.len() + 1 as int,
                        prim as int,
                    ));
                    if prim0 == k {
                        assert(prim == pre.len());
                        assert(result@[prim as int] == cur);
                        assert(covers(result@[prim as int], sor[prim0 as int]));
                    }
                    // the new entry stands clear of everything already placed
                    assert(prev.spec_from() <= cur.spec_from());
                    assert(prev.spec_from() != cur.spec_from());
                    assert(cur.spec_to() >= cur.spec_from());
                    assert(prev.spec_to() <= cur.spec_from());
                    assert(result@.take(result@.len() - 1) =~= pre);
                    assert(pre =~= pre.take(pre.len() - 1).push(pre.last()));
                    assert(merge_from(prev, sor.skip(k as int)) == seq![prev] + merge_from(
                        cur,
                        sor.skip(k as int + 1),
                    ));
                    assert(pre.take(pre.len() - 1) + (seq![prev] + merge_from(
                        cur,
                        sor.skip(k as int + 1),
                    )) =~= (pre.take(pre.len() - 1) + seq![prev]) + merge_from(
                        cur,
                        sor.skip(k as int + 1),
                    ));
                    assert(pre.take(pre.len() - 1) + seq![prev] =~= pre);
                    assert forall|q: int| #![trigger sor[q]] 0 <= q < k + 1 implies covered_by(
                        result@,
                        sor[q],
                    ) by {
                        if q < k {
                            let p0 = choose|p: int|
                                0 <= p < pre.len() && covers(#[trigger] pre[p], sor[q]);
                            assert(covers(result@[p0], sor[q]));
                        } else {
                            assert(covers(result@[result@.len() - 1], sor[q]));
                        }
                    }
                }
            }
            k = k + 1;
        }
        proof {
            assert(sor.skip(k as int) =~= Seq::<Range>::empty());
            assert(merge_from(result@.last(), sor.skip(k as int)) == seq![result@.last()]);
            assert(final_primary(result@.last(), sor.skip(k as int), result@.len() as int, prim as int)
                == prim);
            assert(result@.take(result@.len() - 1) + seq![result@.last()] =~= result@);
        }
        let s = Selection { ranges: result, primary_index: prim };
        proof {
            assert(prim0 < k);
            assert(sor[prim0 as int] == primary);
            assert(covers(s@[s.spec_primary_index()], orig[primary_index as int]));
            assert forall|pos: int|
                #![trigger pos_selected(s@, pos)]
                pos_selected(s@, pos) <==> pos_selected(orig, pos) by {
                lemma_merge_preserves_positions(sor, pos);
                if pos_selected(sor, pos) {
                    let i0 = choose|i0: int|
                        0 <= i0 < sor.len() && (#[trigger] sor[i0]).spec_from() <= pos
                            < sor[i0].spec_to();
                    assert(sor.contains(sor[i0]));
                    assert(orig.to_multiset().count(sor[i0]) > 0);
                    assert(orig.contains(sor[i0]));
                    let j0 = choose|j0: int| 0 <= j0 < orig.len() && orig[j0] == sor[i0];
                    assert(orig[j0].spec_from() <= pos < orig[j0].spec_to());
                    assert(pos_selected(orig, pos));
                }
                if pos_selected(orig, pos) {
                    let i0 = choose|i0: int|
                        0 <= i0 < orig.len() && (#[trigger] orig[i0]).spec_from() <= pos
                            < orig[i0].spec_to();
                    assert(orig.contains(orig[i0]));
                    assert(sor.to_multiset().count(orig[i0]) > 0);
                    assert(sor.contains(orig[i0]));
                    let j0 = choose|j0: int| 0 <= j0 < sor.len() && sor[j0] == orig[i0];
                    assert(sor[j0].spec_from() <= pos < sor[j0].spec_to());
                    assert(pos_selected(sor, pos));
                }
            }
            assert forall|x: Range| orig.contains(x) implies #[trigger] covered_by(s@, x) by {
                assert(orig.to_multiset().count(x) > 0);
                assert(sor.contains(x));
                let q = choose|q: int| 0 <= q < sor.len() && sor[q] == x;
                assert(covered_by(result@, sor[q]));
                assert(s@ == result@);
            }
        }
        s
    }

    /// General constructor. The range list must be non-empty: handing an
    /// empty one over is a programmer error, checked at every call site. A
    /// single range is already normalized and is taken as it stands, with the
    /// primary index forced to 0; more than one range goes through
    /// normalization.
    pub fn new(ranges: Vec<Range>, primary_index: usize) -> (s: Selection)
        requires
            ranges@.len() > 0,
            ranges@.len() == 1 || primary_index < ranges@.len(),
        ensures
            s.wf(),
            s@.len() <= ranges@.len(),
            forall|x: Range| ranges@.contains(x) ==> #[trigger] covered_by(s@, x),
            primary_index < ranges@.len() ==> covers(
                s@[s.spec_primary_index()],
                ranges@[primary_index as int],
            ),
            s@ == normalized_selection(ranges@, primary_index as int).0,
            s.spec_primary_index() == normalized_selection(ranges@, primary_index as int).1,
            forall|pos: int|
                #![trigger pos_selected(s@, pos)]
                pos_selected(s@, pos) <==> pos_selected(ranges@, pos),
            ranges@.len() == 1 ==> s@ == ranges@ && s.spec_primary_index() == 0,
            (sorted_by_from(ranges@) && primary_index == 0) ==> s@ == merge_ranges(ranges@)
                && s.spec_primary_index() == 0,
    {
        if ranges.len() == 1 {
            let s = Selection { ranges, primary_index: 0 };
            proof {
                assert(s@.skip(1) =~= Seq::<Range>::empty());
                assert(merge_ranges(s@) == merge_from(s@[0], s@.skip(1)));
                assert(merge_ranges(s@) =~= s@);
                assert forall|x: Range| s@.contains(x) implies #[trigger] covered_by(s@, x) by {
                    assert(covers(s@[0], x));
                }
            }
            s
        } else {
            Self::normalize(ranges, primary_index)
        }
    }

    /// Apply a pure function to every range and renormalize. The function
    /// must not depend on the other ranges; the order of application is
    /// unspecified.
    pub fn transform<F: Fn(Range) -> Range>(&self, f: F) -> (s: Selection)
        requires
            self.wf(),
            forall|r: Range| #[trigger] f.requires((r,)),
        ensures
            s.wf(),
            exists|ms: Seq<Range>|
                #[trigger] transformed_by(f, self@, ms) && s@ == normalized_selection(
                    ms,
                    self.spec_primary_index(),
                ).0 && s.spec_primary_index() == normalized_selection(
                    ms,
                    self.spec_primary_index(),
                ).1,
    {
        let mut mapped: Vec<Range> = Vec::new();
        let mut i: usize = 0;
        while i < self.ranges.len()
            invariant
                i <= self@.len(),
                mapped@.len() == i,
                self.wf(),
                forall|r: Range| #[trigger] f.requires((r,)),
                forall|j: int| 0 <= j < i ==> f.ensures(((#[trigger] self@[j]),), mapped@[j]),
            decreases self@.len() - i,
        {
            let r = f(self.ranges[i]);
            mapped.push(r);
            i = i + 1;
        }
        let ghost mseq = mapped@;
        let s = Self::new(mapped, self.primary_index);
        proof {
            assert(transformed_by(f, self@, mseq));
            assert(s@ == normalized_selection(mseq, self.spec_primary_index()).0);
            assert(s.spec_primary_index() == normalized_selection(
                mseq,
                self.spec_primary_index(),
            ).1);
        }
        s
    }

    /// The ranges, copied out in sorted order.
    pub fn iter(&self) -> (r: Vec<Range>)
        ensures
            r@ == self@,
    {
        let mut out: Vec<Range> = Vec::new();
        let mut i: usize = 0;
        while i < self.ranges.len()
            invariant
                i <= self@.len(),
                out@ =~= self@.take(i as int),
            decreases self@.len() - i,
        {
            out.push(self.ranges[i]);
            i = i + 1;
        }
        proof {
            assert(self@.take(self@.len() as int) =~= self@);
        }
        out
    }

    /// The slices of the text source under the ranges, one per range, in
    /// sorted order.
    pub fn fragments(&self, text: RopeSlice) -> (r: Vec<String>)
        requires
            forall|i: int|
                0 <= i < self@.len() ==> (#[trigger] self@[i]).spec_to() <= rope_chars(
                    text,
                ).len(),
        ensures
            r@.len() == self@.len(),
            forall|i: int|
                0 <= i < self@.len() ==> (#[trigger] r@[i])@ == rope_chars(text).subrange(
                    self@[i].spec_from() as int,
                    self@[i].spec_to() as int,
                ),
    {
        let mut out: Vec<String> = Vec::new();
        let mut i: usize = 0;
        while i < self.ranges.len()
            invariant
                i <= self@.len(),
                out@.len() == i,
                forall|j: int|
                    0 <= j < self@.len() ==> (#[trigger] self@[j]).spec_to() <= rope_chars(
                        text,
                    ).len(),
                forall|j: int|
                    0 <= j < i ==> (#[trigger] out@[j])@ == rope_chars(text).subrange(
                        self@[j].spec_from() as int,
                        self@[j].spec_to() as int,
                    ),
            decreases self@.len() - i,
        {
            let f = self.ranges[i].fragment(text);
            out.push(f);
            i = i + 1;
        }
        out
    }

    /// Number of ranges in the selection; never zero.
    pub fn len(&self) -> (r: usize)
        ensures
            r == self@.len(),
    {
        self.ranges.len()
    }
}

/// Stable selection sort by the left edge of the span. A list already in
/// order comes back unchanged.
fn sort_ranges(input: Vec<Range>) -> (out: Vec<Range>)
    ensures
        out@.len() == input@.len(),
        out@.to_multiset() == input@.to_multiset(),
        sorted_by_from(out@),
        out@ == sort_by_from_spec(input@),
        sorted_by_from(input@) ==> out@ == input@,
{
    let ghost orig = input@;
    let mut v = input;
    let mut out: Vec<Range> = Vec::new();
    proof {
        assert(out@ + v@ =~= orig);
        assert(out@.to_multiset().add(v@.to_multiset()) =~= orig.to_multiset());
    }
    while v.len() > 0
        invariant
            out@.len() + v@.len() == orig.len(),
            out@.to_multiset().add(v@.to_multiset()) == orig.to_multiset(),
            sorted_by_from(out@),
            forall|p: int, q: int|
                0 <= p < out@.len() && 0 <= q < v@.len() ==> (#[trigger] out@[p]).spec_from() <= (
                #[trigger] v@[q]).spec_from(),
            sort_by_from_spec(orig) == out@ + sort_by_from_spec(v@),
            sorted_by_from(orig) ==> out@ + v@ == orig,
        decreases v@.len(),
    {
        let ghost pre_out = out@;
        let ghost pre_v = v@;
        let mut best: usize = 0;
        let mut j: usize = 1;
        while j < v.len()
            invariant
                v@ == pre_v,
                v@.len() > 0,
                best < j,
                j <= v@.len(),
                forall|p: int| 0 <= p < j ==> v@[best as int].spec_from() <= (
                #[trigger] v@[p]).spec_from(),
                forall|p: int| 0 <= p < best ==> (#[trigger] v@[p]).spec_from()
                    > v@[best as int].spec_from(),
                sorted_by_from(v@) ==> best == 0,
            decreases v@.len() - j,
        {
            if v[j].from() < v[best].from() {
                best = j;
            }
            j = j + 1;
        }
        proof {
            lemma_min_from_index_props(pre_v);
            let mi = min_from_index(pre_v);
            if best < mi {
                assert(pre_v[best as int].spec_from() > pre_v[mi].spec_from());
            }
            if mi < best {
                assert(pre_v[mi].spec_from() > pre_v[best as int].spec_from());
            }
            assert(best == mi);
        }
        let m = v.remove(best);
        out.push(m);
        proof {
            assert(sort_by_from_spec(pre_v) == seq![pre_v[best as int]] + sort_by_from_spec(
                pre_v.remove(best as int),
            ));
            assert(pre_out + (seq![m] + sort_by_from_spec(v@)) =~= (pre_out + seq![m])
                + sort_by_from_spec(v@));
            assert(pre_out + seq![m] =~= out@);
            assert(pre_v.contains(pre_v[best as int]));
            assert(out@.to_multiset() =~= pre_out.to_multiset().insert(m));
            assert(v@.to_multiset() =~= pre_v.to_multiset().remove(m));
            assert(out@.to_multiset().add(v@.to_multiset()) =~= orig.to_multiset());
            if sorted_by_from(orig) {
                assert(pre_out + pre_v == orig);
                assert forall|a: int, b: int|
                    0 <= a < b < pre_v.len() implies (#[trigger] pre_v[a]).spec_from() <= (
                #[trigger] pre_v[b]).spec_from() by {
                    assert((pre_out + pre_v)[pre_out.len() + a] == pre_v[a]);
                    assert((pre_out + pre_v)[pre_out.len() + b] == pre_v[b]);
                }
                assert(sorted_by_from(pre_v));
                assert(best == 0);
                assert(out@ + v@ =~= pre_out + pre_v);
            }
        }
    }
    proof {
        assert(out@ + v@ =~= out@);
        assert(out@ + sort_by_from_spec(v@) =~= out@);
        assert(v@.to_multiset() =~= Multiset::<Range>::empty());
        assert(out@.to_multiset().add(v@.to_multiset()) =~= out@.to_multiset());
    }
    out
}

/// First index holding a range equal to `target`.
fn find_first(v: &Vec<Range>, target: Range) -> (idx: usize)
    requires
        exists|k: int| 0 <= k < v@.len() && v@[k] == target,
    ensures
        idx < v@.len(),
        v@[idx as int] == target,
        forall|p: int| 0 <= p < idx ==> v@[p] != target,
        idx == first_eq_index(v@, target),
{
    let n = v.len();
    let mut j: usize = 0;
    loop
        invariant
            n == v@.len(),
            j < n,
            exists|k: int| j <= k < v@.len() && v@[k] == target,
            forall|p: int| 0 <= p < j ==> v@[p] != target,
        decreases v@.len() - j,
    {
        if range_eq(&v[j], &target) {
            proof {
                assert(v@.contains(v@[j as int]));
                lemma_first_eq_index_props(v@, target);
            }
            return j;
        }
        j = j + 1;
    }
}

/// Field-wise equality of two ranges.
fn range_eq(a: &Range, b: &Range) -> (r: bool)
    ensures
        r == (*a == *b),
{
    a.anchor == b.anchor && a.head == b.head && match (a.horiz, b.horiz) {
        (None, None) => true,
        (Some(x), Some(y)) => x == y,
        _ => false,
    }
}

} // verus!
