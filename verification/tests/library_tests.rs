use regex::Regex;
use ropey::Rope;

use selection_core::ChangeSet;
use selection_core::Operation;
use selection_core::Range;
use selection_core::Selection;
use selection_core::abs_difference;
use selection_core::keep_matches;
use selection_core::select_on_matches;
use selection_core::split_on_matches;

#[test]
fn test_abs_difference() {
    assert_eq!(abs_difference(3, 10), 7);
    assert_eq!(abs_difference(10, 3), 7);
    assert_eq!(abs_difference(4, 4), 0);
}

#[test]
fn test_point_and_single() {
    let sel = Selection::point(5);
    assert_eq!(sel.ranges(), &[Range::new(5, 5)]);
    assert_eq!(sel.len(), 1);
    assert_eq!(sel.primary_index(), 0);

    let sel = Selection::single(3, 7);
    assert_eq!(sel.primary(), Range::new(3, 7));
    assert_eq!(sel.cursor(), 7);

    let range = Range::point(4);
    assert!(range.is_empty());
    assert_eq!(range.from(), 4);
    assert_eq!(range.to(), 4);

    let range = Range::new(9, 2);
    assert_eq!(range.from(), 2);
    assert_eq!(range.to(), 9);
    assert!(!range.is_empty());
}

#[test]
fn test_extend_keeps_direction() {
    let forward = Range::new(2, 5).extend(1, 8);
    assert_eq!(forward, Range::new(1, 8));

    let backward = Range::new(5, 2).extend(1, 8);
    assert_eq!(backward, Range::new(8, 1));

    // extending inside the range leaves the offsets alone
    let inner = Range::new(2, 5).extend(3, 4);
    assert_eq!(inner, Range::new(2, 5));
}

#[test]
fn test_push_appends_and_merges() {
    let sel = Selection::single(0, 2).push(Range::new(5, 7));
    assert_eq!(sel.ranges(), &[Range::new(0, 2), Range::new(5, 7)]);
    assert_eq!(sel.primary_index(), 1);

    let sel = Selection::single(0, 5).push(Range::new(3, 4));
    assert_eq!(sel.ranges(), &[Range::new(0, 5)]);
    assert_eq!(sel.primary_index(), 0);
}

#[test]
fn test_new_single_range_forces_primary() {
    // the single-range fast path ignores the primary index and forces it to 0
    let sel = Selection::new(vec![Range::new(1, 2)], 7);
    assert_eq!(sel.ranges(), &[Range::new(1, 2)]);
    assert_eq!(sel.primary_index(), 0);
}

#[test]
fn test_into_single() {
    let sel = Selection::new(vec![Range::new(0, 2), Range::new(4, 6)], 1).into_single();
    assert_eq!(sel.ranges(), &[Range::new(4, 6)]);
    assert_eq!(sel.primary_index(), 0);
}

#[test]
fn test_iter_and_transform() {
    let sel = Selection::new(vec![Range::new(4, 6), Range::new(0, 2)], 0);
    assert_eq!(sel.iter(), vec![Range::new(0, 2), Range::new(4, 6)]);

    let widened = sel.transform(|range| range.extend(0, 7));
    assert_eq!(widened.ranges(), &[Range::new(0, 7)]);
}

#[test]
fn test_map_pos_insert_affinity() {
    // "abc" -> "aXYbc": insert two characters after the first one
    let cs = ChangeSet::new(vec![Operation::Retain(1), Operation::Insert(2), Operation::Retain(2)]);
    assert_eq!(cs.map_pos(0), 0);
    // a position on the insertion point sticks to the text that follows it
    assert_eq!(cs.map_pos(1), 3);
    assert_eq!(cs.map_pos(2), 4);
    assert_eq!(cs.map_pos(3), 5);
}

#[test]
fn test_map_pos_delete_collapses() {
    // "abcd" -> "ad": delete the middle two characters
    let cs = ChangeSet::new(vec![Operation::Retain(1), Operation::Delete(2), Operation::Retain(1)]);
    assert_eq!(cs.map_pos(1), 1);
    assert_eq!(cs.map_pos(2), 1);
    assert_eq!(cs.map_pos(3), 1);
    assert_eq!(cs.map_pos(4), 2);
}

#[test]
fn test_range_map_resets_horiz() {
    let cs = ChangeSet::new(vec![Operation::Retain(1), Operation::Insert(2), Operation::Retain(2)]);
    let range = Range { anchor: 1, head: 3, horiz: Some(9) };
    let mapped = range.map(&cs);
    assert_eq!(mapped, Range::new(3, 5));
    assert_eq!(mapped.horiz, None);
}

#[test]
fn test_selection_map_through_edit() {
    let cs = ChangeSet::new(vec![Operation::Retain(1), Operation::Insert(2), Operation::Retain(2)]);
    let sel = Selection::new(vec![Range::new(0, 1), Range::new(2, 3)], 1).map(&cs);
    assert_eq!(sel.ranges(), &[Range::new(0, 3), Range::new(4, 5)]);
}

#[test]
fn test_selection_map_identity_on_empty_changes() {
    let sel = Selection::new(vec![Range::new(4, 6), Range::new(0, 2)], 1);
    let mapped = sel.clone().map(&ChangeSet::empty());
    assert_eq!(mapped, sel);
}

#[test]
fn test_fragment_slices_text() {
    let text = Rope::from("hello world");
    let frag = Range::new(5, 2).fragment(text.slice(..));
    assert_eq!(frag, "llo");

    let sel = Selection::new(vec![Range::new(6, 11), Range::new(0, 5)], 0);
    assert_eq!(sel.fragments(text.slice(..)), vec!["hello", "world"]);
}

#[test]
fn test_keep_matches_filters_ranges() {
    let text = Rope::from("foo bar baz");
    let sel = Selection::new(
        vec![Range::new(0, 3), Range::new(4, 7), Range::new(8, 11)],
        2,
    );

    let kept = keep_matches(text.slice(..), &sel, &Regex::new("^b").unwrap()).unwrap();
    assert_eq!(kept.ranges(), &[Range::new(4, 7), Range::new(8, 11)]);
    // the primary index is reset to the first range
    assert_eq!(kept.primary_index(), 0);

    // nothing matches: signal "no change" instead of an empty selection
    assert!(keep_matches(text.slice(..), &sel, &Regex::new("qux").unwrap()).is_none());
}

#[test]
fn test_select_on_matches_replaces_ranges() {
    let text = Rope::from("one two three");
    let sel = Selection::single(13, 0);

    let selected = select_on_matches(text.slice(..), &sel, &Regex::new("[a-z]+").unwrap()).unwrap();
    // new ranges are always forward, whatever the original direction
    assert_eq!(
        selected.ranges(),
        &[Range::new(0, 3), Range::new(4, 7), Range::new(8, 13)]
    );
    assert_eq!(selected.primary_index(), 0);

    assert!(select_on_matches(text.slice(..), &sel, &Regex::new("[0-9]").unwrap()).is_none());
}

#[test]
fn test_split_passes_zero_width_range_through() {
    let text = Rope::from("foo bar");
    let sel = Selection::new(vec![Range::new(2, 2), Range::new(3, 7)], 0);

    let result = split_on_matches(text.slice(..), &sel, &Regex::new(r"\s+").unwrap());
    // the cursor at 2 is never split; the other range splits on the blank
    assert_eq!(
        result.ranges(),
        &[Range::new(2, 2), Range::new(3, 3), Range::new(4, 7)]
    );
    assert_eq!(result.primary_index(), 0);
}

#[test]
fn test_split_without_matches_keeps_ranges() {
    let text = Rope::from("foobar");
    let sel = Selection::single(6, 1);

    let result = split_on_matches(text.slice(..), &sel, &Regex::new(r"\s+").unwrap());
    assert_eq!(result.ranges(), &[Range::new(1, 6)]);
}

#[test]
fn test_select_on_matches_multibyte_round_trip() {
    // 'a' is 1 byte, 'é' 2 bytes, '☃' 3 bytes: the match's byte offsets must
    // come back as character offsets, not byte offsets
    let text = Rope::from("a\u{e9}\u{2603}x");
    let sel = Selection::single(0, 4);

    let selected =
        select_on_matches(text.slice(..), &sel, &Regex::new("\u{e9}\u{2603}").unwrap()).unwrap();
    assert_eq!(selected.ranges(), &[Range::new(1, 3)]);
    // re-slicing the text with the translated offsets reproduces the match
    assert_eq!(selected.fragments(text.slice(..)), vec!["\u{e9}\u{2603}"]);
}
