//! Match-driven selection transforms: keep, select and split on a pattern.
//!
//! All three take a text source, an existing selection and a compiled
//! pattern. The pattern engine reports byte offsets into the UTF-8 encoding
//! of a range's fragment; those are translated back into the editor's
//! character-offset space through the text source's boundary conversions,
//! which is always safe because match boundaries land on encoded-character
//! boundaries.
use regex::Regex;
use ropey::RopeSlice;
use vstd::prelude::*;

use crate::pattern::found_in;
use crate::pattern::match_spans;
use crate::pattern::pattern_of;
use crate::pattern::regex_find_spans;
use crate::pattern::regex_is_match;
use crate::range::Range;
use crate::selection::Selection;
use crate::selection::lemma_merge_ranges_normalized;
use crate::selection::merge_ranges;
use crate::selection::ranges_normalized;
use crate::selection::sorted_by_from;
use crate::text::boundary_char_index;
use crate::text::byte_len_of_prefix;
use crate::text::is_byte_boundary;
use crate::text::lemma_byte_len_injective;
use crate::text::lemma_byte_len_mono;
use crate::text::lemma_byte_len_split_window;
use crate::text::rope_byte_to_char;
use crate::text::rope_char_to_byte;
use crate::text::rope_chars;

verus! {

/// The fragment of the text source a range spans, as characters.
pub open spec fn frag_of(text: RopeSlice, rg: Range) -> Seq<char> {
    rope_chars(text).subrange(rg.spec_from() as int, rg.spec_to() as int)
}

/// All ranges lie within the text source.
pub open spec fn sel_in_bounds(rs: Seq<Range>, text: RopeSlice) -> bool {
    forall|i: int| 0 <= i < rs.len() ==> (#[trigger] rs[i]).spec_to() <= rope_chars(text).len()
}

/// The ranges whose fragment the pattern matches somewhere, in order.
pub open spec fn kept_ranges(text: RopeSlice, pattern: Seq<char>, rs: Seq<Range>) -> Seq<Range>
    decreases rs.len(),
{
    if rs.len() == 0 {
        Seq::empty()
    } else if found_in(pattern, frag_of(text, rs[0])) {
        seq![rs[0]] + kept_ranges(text, pattern, rs.skip(1))
    } else {
        kept_ranges(text, pattern, rs.skip(1))
    }
}

/// Retain only the ranges whose fragment the pattern matches somewhere. When
/// no range at all is retained the transform signals "no change" by
/// returning nothing, so the caller can keep the previous selection; an
/// empty selection is never produced. The primary index of the result is
/// reset to the first range.
pub fn keep_matches(text: RopeSlice, selection: &Selection, regex: &Regex) -> (r: Option<
    Selection,
>)
    requires
        selection.wf(),
        sel_in_bounds(selection@, text),
    ensures
        ({
            let kept = kept_ranges(text, pattern_of(*regex), selection@);
            match r {
                Some(s) => kept.len() > 0 && s@ == kept && s.spec_primary_index() == 0
                    && s.wf(),
                None => kept.len() == 0,
            }
        }),
{
    let ghost all = selection@;
    let ghost pat = pattern_of(*regex);
    let rs = selection.iter();
    let mut result: Vec<Range> = Vec::new();
    let mut i: usize = 0;
    proof {
        assert(all.skip(0) =~= all);
    }
    while i < rs.len()
        invariant
            i <= all.len(),
            rs@ == all,
            all == selection@,
            selection.wf(),
            sel_in_bounds(all, text),
            pat == pattern_of(*regex),
            kept_ranges(text, pat, all) == result@ + kept_ranges(text, pat, all.skip(i as int)),
            ranges_normalized(result@),
            result@.len() > 0 ==> exists|t: int| 0 <= t < i && result@.last() == all[t],
        decreases all.len() - i,
    {
        let ghost pre = result@;
        proof {
            assert(all.skip(i as int)[0] == all[i as int]);
            assert(all.skip(i as int).skip(1) =~= all.skip(i as int + 1));
        }
        let rg = rs[i];
        let frag = rg.fragment(text);
        if regex_is_match(regex, frag.as_str()) {
            proof {
                assert(ranges_normalized(all));
                assert(ranges_normalized(pre));
                if pre.len() > 0 {
                    let t = choose|t: int| 0 <= t < i && pre.last() == all[t];
                    assert(all[t].spec_from() < all[i as int].spec_from());
                    assert(all[t].spec_to() <= all[i as int].spec_from());
                    assert forall|p: int| 0 <= p < pre.len() implies (
                    #[trigger] pre[p]).spec_from() < rg.spec_from() && pre[p].spec_to()
                        <= rg.spec_from() by {
                        if p < pre.len() - 1 {
                            assert(pre[p].spec_from() < pre.last().spec_from());
                            assert(pre[p].spec_to() <= pre.last().spec_from());
                        }
                    }
                }
            }
            result.push(rg);
            proof {
                assert(kept_ranges(text, pat, all.skip(i as int)) == seq![all[i as int]]
                    + kept_ranges(text, pat, all.skip(i as int + 1)));
                assert(pre + (seq![all[i as int]] + kept_ranges(text, pat, all.skip(i as int + 1)))
                    =~= result@ + kept_ranges(text, pat, all.skip(i as int + 1)));
            }
        } else {
            proof {
                assert(kept_ranges(text, pat, all.skip(i as int)) == kept_ranges(
                    text,
                    pat,
                    all.skip(i as int + 1),
                ));
            }
        }
        i = i + 1;
    }
    proof {
        assert(all.skip(i as int) =~= Seq::<Range>::empty());
        assert(result@ + kept_ranges(text, pat, all.skip(i as int)) =~= result@);
    }
    if result.len() > 0 {
        proof {
            assert(sorted_by_from(result@));
            lemma_merge_ranges_normalized(result@);
        }
        Some(Selection::new(result, 0))
    } else {
        None
    }
}

/// Translate a boundary byte offset inside the fragment `from..to` back into
/// an absolute character offset.
fn byte_in_frag_to_char(
    text: RopeSlice,
    from: usize,
    to: usize,
    start_byte: usize,
    end_byte: usize,
    b: usize,
) -> (ci: usize)
    requires
        from <= to,
        to <= rope_chars(text).len(),
        start_byte == byte_len_of_prefix(rope_chars(text), from as int),
        end_byte == byte_len_of_prefix(rope_chars(text), to as int),
        is_byte_boundary(rope_chars(text).subrange(from as int, to as int), b as int),
        b <= end_byte - start_byte,
    ensures
        ci == from + boundary_char_index(
            rope_chars(text).subrange(from as int, to as int),
            b as int,
        ),
        from <= ci <= to,
        byte_len_of_prefix(rope_chars(text), ci as int) == start_byte + b,
{
    let ghost s = rope_chars(text);
    let ghost frag = s.subrange(from as int, to as int);
    let ghost k = boundary_char_index(frag, b as int);
    proof {
        assert(0 <= k <= frag.len() && byte_len_of_prefix(frag, k) == b);
        lemma_byte_len_split_window(s, from as int, to as int, k);
        assert(byte_len_of_prefix(s, from + k) == start_byte + b);
        assert(is_byte_boundary(s, (start_byte + b) as int));
    }
    let ci = rope_byte_to_char(text, start_byte + b);
    proof {
        lemma_byte_len_injective(s, ci as int, from + k);
    }
    ci
}

/// The character-offset range of one match span inside a fragment that
/// starts at character offset `from`.
pub open spec fn match_char_range(from: int, frag: Seq<char>, sp: (usize, usize)) -> Range {
    Range {
        anchor: (from + boundary_char_index(frag, sp.0 as int)) as usize,
        head: (from + boundary_char_index(frag, sp.1 as int)) as usize,
        horiz: None,
    }
}

/// The ranges the pattern's matches select inside one range, in order.
pub open spec fn match_ranges_for(text: RopeSlice, pattern: Seq<char>, rg: Range) -> Seq<Range> {
    match_spans(pattern, frag_of(text, rg)).map_values(
        |sp: (usize, usize)| match_char_range(rg.spec_from() as int, frag_of(text, rg), sp),
    )
}

/// The ranges the pattern's matches select over a whole range list.
pub open spec fn selected_ranges(text: RopeSlice, pattern: Seq<char>, rs: Seq<Range>) -> Seq<
    Range,
>
    decreases rs.len(),
{
    if rs.len() == 0 {
        Seq::empty()
    } else {
        match_ranges_for(text, pattern, rs[0]) + selected_ranges(text, pattern, rs.skip(1))
    }
}

/// Collect into `result` one forward range per pattern match within the
/// fragment of `rg`, at the match spans translated back into character
/// offsets.
#[verifier::rlimit(100)]
fn select_in_range(text: RopeSlice, rg: Range, regex: &Regex, result: &mut Vec<Range>)
    requires
        rg.spec_to() <= rope_chars(text).len(),
        sorted_by_from(old(result)@),
        forall|p: int|
            0 <= p < old(result)@.len() ==> (#[trigger] old(result)@[p]).spec_from()
                <= rg.spec_from(),
    ensures
        final(result)@ == old(result)@ + match_ranges_for(text, pattern_of(*regex), rg),
        sorted_by_from(final(result)@),
        forall|p: int|
            old(result)@.len() <= p < final(result)@.len() ==> rg.spec_from() <= (
            #[trigger] final(result)@[p]).spec_from() && final(result)@[p].spec_from()
                <= rg.spec_to(),
{
    let ghost pre = result@;
    let ghost pat = pattern_of(*regex);
    let ghost s = rope_chars(text);
    let sel_start = rg.from();
    let sel_end = rg.to();
    let frag = rg.fragment(text);
    let start_byte = rope_char_to_byte(text, sel_start);
    let end_byte = rope_char_to_byte(text, sel_end);
    let ghost fragseq = frag_of(text, rg);
    let ghost mr = match_ranges_for(text, pat, rg);
    proof {
        lemma_byte_len_split_window(s, sel_start as int, sel_end as int, sel_end - sel_start);
        assert(byte_len_of_prefix(fragseq, fragseq.len() as int) == end_byte - start_byte);
    }
    let spans = regex_find_spans(regex, frag.as_str());
    let mut j: usize = 0;
    while j < spans.len()
        invariant
            j <= spans@.len(),
            s == rope_chars(text),
            sel_start == rg.spec_from(),
            sel_end == rg.spec_to(),
            sel_end <= s.len(),
            fragseq == frag_of(text, rg),
            start_byte == byte_len_of_prefix(s, sel_start as int),
            end_byte == byte_len_of_prefix(s, sel_end as int),
            byte_len_of_prefix(fragseq, fragseq.len() as int) == end_byte - start_byte,
            spans@ == match_spans(pat, fragseq),
            pat == pattern_of(*regex),
            mr == match_ranges_for(text, pat, rg),
            forall|q: int|
                0 <= q < spans@.len() ==> (#[trigger] spans@[q]).0 <= spans@[q].1
                    && is_byte_boundary(fragseq, spans@[q].0 as int) && is_byte_boundary(
                    fragseq,
                    spans@[q].1 as int,
                ) && spans@[q].1 <= end_byte - start_byte,
            forall|q: int|
                0 <= q < spans@.len() - 1 ==> (#[trigger] spans@[q]).1 <= spans@[q + 1].0
                    && spans@[q].0 < spans@[q + 1].0,
            result@ == pre + mr.take(j as int),
            sorted_by_from(result@),
            sorted_by_from(pre),
            forall|p: int|
                0 <= p < pre.len() ==> (#[trigger] pre[p]).spec_from() <= rg.spec_from(),
            forall|p: int|
                pre.len() <= p < result@.len() ==> rg.spec_from() <= (
                #[trigger] result@[p]).spec_from() && result@[p].spec_from() <= rg.spec_to(),
            j > 0 ==> result@.len() > 0 && result@.last() == mr[j - 1],
            j == 0 ==> result@ == pre,
        decreases spans@.len() - j,
    {
        let sp = spans[j];
        let ghost k0 = boundary_char_index(fragseq, sp.0 as int);
        let ghost k1 = boundary_char_index(fragseq, sp.1 as int);
        proof {
            assert(0 <= k0 <= fragseq.len() && byte_len_of_prefix(fragseq, k0) == sp.0);
            assert(0 <= k1 <= fragseq.len() && byte_len_of_prefix(fragseq, k1) == sp.1);
            if k1 < k0 {
                lemma_byte_len_mono(fragseq, k1, k0);
            }
        }
        let c0 = byte_in_frag_to_char(text, sel_start, sel_end, start_byte, end_byte, sp.0);
        let c1 = byte_in_frag_to_char(text, sel_start, sel_end, start_byte, end_byte, sp.1);
        result.push(Range::new(c0, c1));
        proof {
            assert(mr[j as int] == match_char_range(sel_start as int, fragseq, sp));
            assert(result@.last() == mr[j as int]);
            assert(result@ =~= pre + mr.take(j as int + 1));
            if j > 0 {
                let spp = spans@[j - 1];
                let ghost kp = boundary_char_index(fragseq, spp.0 as int);
                let ghost kp1 = boundary_char_index(fragseq, spp.1 as int);
                assert(0 <= kp <= fragseq.len() && byte_len_of_prefix(fragseq, kp) == spp.0);
                assert(0 <= kp1 <= fragseq.len() && byte_len_of_prefix(fragseq, kp1) == spp.1);
                if k0 <= kp {
                    lemma_byte_len_mono(fragseq, k0, kp);
                }
                if kp1 < kp {
                    lemma_byte_len_mono(fragseq, kp1, kp);
                }
                assert(kp < k0);
                assert(mr[j - 1] == match_char_range(sel_start as int, fragseq, spp));
                assert(mr[j - 1].spec_from() == sel_start + kp);
            }
            assert(result@.last().spec_from() == c0);
            assert(sorted_by_from(result@));
        }
        j = j + 1;
    }
    proof {
        assert(mr.take(spans@.len() as int) =~= mr);
    }
}

/// Replace every range by one new forward range per pattern match within its
/// fragment, at the match's span translated back into character offsets.
/// When no range produces any match the transform signals "no change" by
/// returning nothing. The original range direction is not retained, and the
/// primary index of the result is reset to 0.
pub fn select_on_matches(text: RopeSlice, selection: &Selection, regex: &Regex) -> (r: Option<
    Selection,
>)
    requires
        selection.wf(),
        sel_in_bounds(selection@, text),
    ensures
        ({
            let all = selected_ranges(text, pattern_of(*regex), selection@);
            match r {
                Some(s) => all.len() > 0 && s@ == merge_ranges(all) && s.spec_primary_index()
                    == 0 && s.wf(),
                None => all.len() == 0,
            }
        }),
{
    let ghost sel = selection@;
    let ghost pat = pattern_of(*regex);
    let rs = selection.iter();
    let mut result: Vec<Range> = Vec::new();
    let mut i: usize = 0;
    proof {
        assert(sel.skip(0) =~= sel);
    }
    while i < rs.len()
        invariant
            i <= sel.len(),
            rs@ == sel,
            sel == selection@,
            selection.wf(),
            sel_in_bounds(sel, text),
            pat == pattern_of(*regex),
            selected_ranges(text, pat, sel) == result@ + selected_ranges(
                text,
                pat,
                sel.skip(i as int),
            ),
            sorted_by_from(result@),
            forall|p: int, t: int|
                0 <= p < result@.len() && i <= t < sel.len() ==> (
                #[trigger] result@[p]).spec_from() <= (#[trigger] sel[t]).spec_from(),
        decreases sel.len() - i,
    {
        let ghost pre = result@;
        proof {
            assert(ranges_normalized(sel));
            assert(sel.skip(i as int)[0] == sel[i as int]);
            assert(sel.skip(i as int).skip(1) =~= sel.skip(i as int + 1));
        }
        let rg = rs[i];
        let ghost mr = match_ranges_for(text, pat, rg);
        select_in_range(text, rg, regex, &mut result);
        proof {
            assert(selected_ranges(text, pat, sel.skip(i as int)) == mr + selected_ranges(
                text,
                pat,
                sel.skip(i as int + 1),
            ));
            assert(pre + (mr + selected_ranges(text, pat, sel.skip(i as int + 1))) =~= (pre + mr)
                + selected_ranges(text, pat, sel.skip(i as int + 1)));
            assert forall|p: int, t: int|
                0 <= p < result@.len() && i + 1 <= t < sel.len() implies (
            #[trigger] result@[p]).spec_from() <= (#[trigger] sel[t]).spec_from() by {
                if p >= pre.len() {
                    assert(result@[p].spec_from() <= rg.spec_to());
                    assert(sel[i as int].spec_to() <= sel[t].spec_from());
                }
            }
        }
        i = i + 1;
    }
    proof {
        assert(sel.skip(i as int) =~= Seq::<Range>::empty());
        assert(result@ + selected_ranges(text, pat, sel.skip(i as int)) =~= result@);
    }
    if result.len() > 0 {
        Some(Selection::new(result, 0))
    } else {
        None
    }
}

/// The sub-ranges left when the matches inside the fragment act as
/// separators: one range per gap, `start` being the character offset where
/// the pending gap begins. A gap closed by a match is kept even when
/// zero-width; the final gap is kept only when it is non-empty.
pub open spec fn gap_ranges(
    from: int,
    frag: Seq<char>,
    spans: Seq<(usize, usize)>,
    start: int,
    send: int,
) -> Seq<Range>
    decreases spans.len(),
{
    if spans.len() == 0 {
        if start < send {
            seq![Range { anchor: start as usize, head: send as usize, horiz: None }]
        } else {
            Seq::empty()
        }
    } else {
        seq![
            Range {
                anchor: start as usize,
                head: (from + boundary_char_index(frag, spans[0].0 as int)) as usize,
                horiz: None,
            },
        ] + gap_ranges(
            from,
            frag,
            spans.skip(1),
            from + boundary_char_index(frag, spans[0].1 as int),
            send,
        )
    }
}

/// What splitting one range on the pattern leaves: a zero-width range passes
/// through unchanged; any other range becomes its gaps between matches.
pub open spec fn split_ranges_for(text: RopeSlice, pattern: Seq<char>, rg: Range) -> Seq<Range> {
    if rg.spec_from() == rg.spec_to() {
        seq![rg]
    } else {
        gap_ranges(
            rg.spec_from() as int,
            frag_of(text, rg),
            match_spans(pattern, frag_of(text, rg)),
            rg.spec_from() as int,
            rg.spec_to() as int,
        )
    }
}

/// What splitting every range of a list on the pattern leaves, in order.
pub open spec fn split_ranges(text: RopeSlice, pattern: Seq<char>, rs: Seq<Range>) -> Seq<Range>
    decreases rs.len(),
{
    if rs.len() == 0 {
        Seq::empty()
    } else {
        split_ranges_for(text, pattern, rs[0]) + split_ranges(text, pattern, rs.skip(1))
    }
}

/// Collect into `result` the gaps the pattern's matches leave inside the
/// fragment of `rg`; a zero-width range passes through unchanged.
#[verifier::rlimit(100)]
fn split_in_range(text: RopeSlice, rg: Range, regex: &Regex, result: &mut Vec<Range>)
    requires
        rg.spec_to() <= rope_chars(text).len(),
        sorted_by_from(old(result)@),
        forall|p: int|
            0 <= p < old(result)@.len() ==> (#[trigger] old(result)@[p]).spec_from()
                <= rg.spec_from(),
    ensures
        final(result)@ == old(result)@ + split_ranges_for(text, pattern_of(*regex), rg),
        sorted_by_from(final(result)@),
        final(result)@.len() > old(result)@.len(),
        forall|p: int|
            old(result)@.len() <= p < final(result)@.len() ==> rg.spec_from() <= (
            #[trigger] final(result)@[p]).spec_from() && final(result)@[p].spec_from()
                <= rg.spec_to(),
{
    let ghost pre = result@;
    let ghost pat = pattern_of(*regex);
    let ghost s = rope_chars(text);
    let sel_start = rg.from();
    let sel_end = rg.to();
    if sel_start == sel_end {
        result.push(rg);
        proof {
            assert(split_ranges_for(text, pat, rg) =~= seq![rg]);
            assert(result@ =~= pre + seq![rg]);
        }
        return ;
    }
    let frag = rg.fragment(text);
    let start_byte = rope_char_to_byte(text, sel_start);
    let end_byte = rope_char_to_byte(text, sel_end);
    let ghost fragseq = frag_of(text, rg);
    proof {
        lemma_byte_len_split_window(s, sel_start as int, sel_end as int, sel_end - sel_start);
        assert(byte_len_of_prefix(fragseq, fragseq.len() as int) == end_byte - start_byte);
    }
    let spans = regex_find_spans(regex, frag.as_str());
    let ghost gall = gap_ranges(
        sel_start as int,
        fragseq,
        spans@,
        sel_start as int,
        sel_end as int,
    );
    let mut start: usize = sel_start;
    let mut j: usize = 0;
    proof {
        assert(spans@.skip(0) =~= spans@);
        assert(result@.skip(pre.len() as int) =~= Seq::<Range>::empty());
        assert(result@.take(pre.len() as int) =~= pre);
    }
    while j < spans.len()
        invariant
            j <= spans@.len(),
            s == rope_chars(text),
            sel_start == rg.spec_from(),
            sel_end == rg.spec_to(),
            sel_start < sel_end,
            sel_end <= s.len(),
            fragseq == frag_of(text, rg),
            start_byte == byte_len_of_prefix(s, sel_start as int),
            end_byte == byte_len_of_prefix(s, sel_end as int),
            byte_len_of_prefix(fragseq, fragseq.len() as int) == end_byte - start_byte,
            spans@ == match_spans(pat, fragseq),
            pat == pattern_of(*regex),
            gall == gap_ranges(sel_start as int, fragseq, spans@, sel_start as int, sel_end as int),
            forall|q: int|
                0 <= q < spans@.len() ==> (#[trigger] spans@[q]).0 <= spans@[q].1
                    && is_byte_boundary(fragseq, spans@[q].0 as int) && is_byte_boundary(
                    fragseq,
                    spans@[q].1 as int,
                ) && spans@[q].1 <= end_byte - start_byte,
            forall|q: int|
                0 <= q < spans@.len() - 1 ==> (#[trigger] spans@[q]).1 <= spans@[q + 1].0
                    && spans@[q].0 < spans@[q + 1].0,
            sel_start <= start <= sel_end,
            j == 0 ==> start == sel_start && result@ == pre,
            j > 0 ==> start == sel_start + boundary_char_index(fragseq, spans@[j - 1].1 as int)
                && result@.len() > pre.len(),
            result@.len() >= pre.len(),
            result@.take(pre.len() as int) == pre,
            gall == result@.skip(pre.len() as int) + gap_ranges(
                sel_start as int,
                fragseq,
                spans@.skip(j as int),
                start as int,
                sel_end as int,
            ),
            sorted_by_from(result@),
            sorted_by_from(pre),
            forall|p: int|
                0 <= p < pre.len() ==> (#[trigger] pre[p]).spec_from() <= rg.spec_from(),
            forall|p: int|
                pre.len() <= p < result@.len() ==> rg.spec_from() <= (
                #[trigger] result@[p]).spec_from() && result@[p].spec_from() <= rg.spec_to(),
            result@.len() > pre.len() ==> result@.last().spec_from() <= start,
        decreases spans@.len() - j,
    {
        let ghost prev_all = result@;
        let ghost emitted = result@.skip(pre.len() as int);
        let sp = spans[j];
        let ghost k0 = boundary_char_index(fragseq, sp.0 as int);
        let ghost k1 = boundary_char_index(fragseq, sp.1 as int);
        proof {
            assert(spans@.skip(j as int)[0] == spans@[j as int]);
            assert(spans@.skip(j as int).skip(1) =~= spans@.skip(j as int + 1));
            assert(0 <= k0 <= fragseq.len() && byte_len_of_prefix(fragseq, k0) == sp.0);
            assert(0 <= k1 <= fragseq.len() && byte_len_of_prefix(fragseq, k1) == sp.1);
            if k1 < k0 {
                lemma_byte_len_mono(fragseq, k1, k0);
            }
            if j > 0 {
                let spp = spans@[j - 1];
                let kp1 = boundary_char_index(fragseq, spp.1 as int);
                assert(0 <= kp1 <= fragseq.len() && byte_len_of_prefix(fragseq, kp1) == spp.1);
                if k0 < kp1 {
                    lemma_byte_len_mono(fragseq, k0, kp1);
                }
                assert(start <= sel_start + k0);
            }
        }
        let gap_end = byte_in_frag_to_char(text, sel_start, sel_end, start_byte, end_byte, sp.0);
        result.push(Range::new(start, gap_end));
        proof {
            let g = Range { anchor: start as usize, head: gap_end as usize, horiz: None };
            assert(start <= gap_end);
            assert(result@.last() == g);
            assert(result@.last().spec_from() == start);
            assert(result@.take(pre.len() as int) =~= pre);
            assert(result@.skip(pre.len() as int) =~= emitted + seq![g]);
            assert(gap_ranges(
                sel_start as int,
                fragseq,
                spans@.skip(j as int),
                start as int,
                sel_end as int,
            ) == seq![g] + gap_ranges(
                sel_start as int,
                fragseq,
                spans@.skip(j as int + 1),
                sel_start + k1,
                sel_end as int,
            ));
            assert(emitted + (seq![g] + gap_ranges(
                sel_start as int,
                fragseq,
                spans@.skip(j as int + 1),
                sel_start + k1,
                sel_end as int,
            )) =~= (emitted + seq![g]) + gap_ranges(
                sel_start as int,
                fragseq,
                spans@.skip(j as int + 1),
                sel_start + k1,
                sel_end as int,
            ));
            assert(sorted_by_from(result@));
        }
        start = byte_in_frag_to_char(text, sel_start, sel_end, start_byte, end_byte, sp.1);
        j = j + 1;
    }
    let ghost emitted = result@.skip(pre.len() as int);
    proof {
        assert(spans@.skip(j as int) =~= Seq::<(usize, usize)>::empty());
    }
    if start < sel_end {
        result.push(Range::new(start, sel_end));
        proof {
            let g = Range { anchor: start as usize, head: sel_end as usize, horiz: None };
            assert(result@.take(pre.len() as int) =~= pre);
            assert(result@.skip(pre.len() as int) =~= emitted + seq![g]);
            assert(emitted + seq![g] =~= gall);
            assert(sorted_by_from(result@));
        }
    } else {
        proof {
            assert(emitted =~= gall);
        }
    }
    proof {
        assert(split_ranges_for(text, pat, rg) == gall);
        assert(result@ =~= pre + result@.skip(pre.len() as int));
    }
}

/// Split every range on the pattern's matches, the matches acting as
/// separators: one sub-range per gap. A zero-width range is never split.
/// Because ranges are inclusive-left and exclusive-right, a match touching
/// the start of a fragment leaves a leading zero-width range, so a selection
/// is never reduced to nothing, while a match touching the end leaves no
/// trailing zero-width range. The primary index of the result is reset to 0.
pub fn split_on_matches(text: RopeSlice, selection: &Selection, regex: &Regex) -> (r: Selection)
    requires
        selection.wf(),
        sel_in_bounds(selection@, text),
    ensures
        ({
            let parts = split_ranges(text, pattern_of(*regex), selection@);
            parts.len() > 0 && r@ == merge_ranges(parts) && r.spec_primary_index() == 0
                && r.wf()
        }),
{
    let ghost sel = selection@;
    let ghost pat = pattern_of(*regex);
    let rs = selection.iter();
    let mut result: Vec<Range> = Vec::new();
    let mut i: usize = 0;
    proof {
        assert(sel.skip(0) =~= sel);
    }
    while i < rs.len()
        invariant
            i <= sel.len(),
            rs@ == sel,
            sel == selection@,
            selection.wf(),
            sel_in_bounds(sel, text),
            pat == pattern_of(*regex),
            split_ranges(text, pat, sel) == result@ + split_ranges(text, pat, sel.skip(i as int)),
            i > 0 ==> result@.len() > 0,
            sorted_by_from(result@),
            forall|p: int, t: int|
                0 <= p < result@.len() && i <= t < sel.len() ==> (
                #[trigger] result@[p]).spec_from() <= (#[trigger] sel[t]).spec_from(),
        decreases sel.len() - i,
    {
        let ghost pre = result@;
        proof {
            assert(ranges_normalized(sel));
            assert(sel.skip(i as int)[0] == sel[i as int]);
            assert(sel.skip(i as int).skip(1) =~= sel.skip(i as int + 1));
        }
        let rg = rs[i];
        let ghost sr = split_ranges_for(text, pat, rg);
        split_in_range(text, rg, regex, &mut result);
        proof {
            assert(split_ranges(text, pat, sel.skip(i as int)) == sr + split_ranges(
                text,
                pat,
                sel.skip(i as int + 1),
            ));
            assert(pre + (sr + split_ranges(text, pat, sel.skip(i as int + 1))) =~= (pre + sr)
                + split_ranges(text, pat, sel.skip(i as int + 1)));
            assert forall|p: int, t: int|
                0 <= p < result@.len() && i + 1 <= t < sel.len() implies (
            #[trigger] result@[p]).spec_from() <= (#[trigger] sel[t]).spec_from() by {
                if p >= pre.len() {
                    assert(result@[p].spec_from() <= rg.spec_to());
                    assert(sel[i as int].spec_to() <= sel[t].spec_from());
                }
            }
        }
        i = i + 1;
    }
    proof {
        assert(sel.skip(i as int) =~= Seq::<Range>::empty());
        assert(result@ + split_ranges(text, pat, sel.skip(i as int)) =~= result@);
    }
    Selection::new(result, 0)
}

} // verus!
