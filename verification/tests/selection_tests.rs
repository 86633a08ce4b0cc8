use regex::Regex;
use ropey::Rope;

use selection_core::Range;
use selection_core::Selection;
use selection_core::split_on_matches;

fn spans_of(sel: &Selection) -> String {
    sel.ranges()
        .iter()
        .map(|range| format!("{}/{}", range.anchor, range.head))
        .collect::<Vec<String>>()
        .join(",")
}

#[test]
#[should_panic]
fn test_new_empty() {
    let _sel = Selection::new(vec![], 0);
}

#[test]
fn test_create_normalizes_and_merges() {
    let sel = Selection::new(
        vec![
            Range::new(10, 12),
            Range::new(6, 7),
            Range::new(4, 5),
            Range::new(3, 4),
            Range::new(0, 6),
            Range::new(7, 8),
            Range::new(9, 13),
            Range::new(13, 14),
        ],
        0,
    );

    assert_eq!(spans_of(&sel), "0/6,6/7,7/8,9/13,13/14");

    // it correctly calculates a new primary index
    let sel = Selection::new(vec![Range::new(0, 2), Range::new(1, 5), Range::new(4, 7)], 2);

    assert_eq!(spans_of(&sel), "0/7");
    assert_eq!(sel.primary_index(), 0);
}

#[test]
fn test_create_merges_adjacent_points() {
    let sel = Selection::new(
        vec![
            Range::new(10, 12),
            Range::new(12, 12),
            Range::new(12, 12),
            Range::new(10, 10),
            Range::new(8, 10),
        ],
        0,
    );

    assert_eq!(spans_of(&sel), "8/10,10/12,12/12");
}

#[test]
fn test_contains() {
    let range = Range::new(10, 12);

    assert_eq!(range.contains(9), false);
    assert_eq!(range.contains(10), true);
    assert_eq!(range.contains(11), true);
    assert_eq!(range.contains(12), false);
    assert_eq!(range.contains(13), false);

    let range = Range::new(9, 6);
    assert_eq!(range.contains(9), false);
    assert_eq!(range.contains(7), true);
    assert_eq!(range.contains(6), true);
}

#[test]
fn test_overlaps() {
    // Two non-zero-width ranges, no overlap.
    assert!(!Range::new(0, 3).overlaps(&Range::new(3, 6)));
    assert!(!Range::new(0, 3).overlaps(&Range::new(6, 3)));
    assert!(!Range::new(3, 0).overlaps(&Range::new(3, 6)));
    assert!(!Range::new(3, 0).overlaps(&Range::new(6, 3)));
    assert!(!Range::new(3, 6).overlaps(&Range::new(0, 3)));
    assert!(!Range::new(3, 6).overlaps(&Range::new(3, 0)));
    assert!(!Range::new(6, 3).overlaps(&Range::new(0, 3)));
    assert!(!Range::new(6, 3).overlaps(&Range::new(3, 0)));

    // Two non-zero-width ranges, overlap.
    assert!(Range::new(0, 4).overlaps(&Range::new(3, 6)));
    assert!(Range::new(0, 4).overlaps(&Range::new(6, 3)));
    assert!(Range::new(4, 0).overlaps(&Range::new(3, 6)));
    assert!(Range::new(4, 0).overlaps(&Range::new(6, 3)));
    assert!(Range::new(3, 6).overlaps(&Range::new(0, 4)));
    assert!(Range::new(3, 6).overlaps(&Range::new(4, 0)));
    assert!(Range::new(6, 3).overlaps(&Range::new(0, 4)));
    assert!(Range::new(6, 3).overlaps(&Range::new(4, 0)));

    // Zero-width and non-zero-width range, no overlap.
    assert!(!Range::new(0, 3).overlaps(&Range::new(3, 3)));
    assert!(!Range::new(3, 0).overlaps(&Range::new(3, 3)));
    assert!(!Range::new(3, 3).overlaps(&Range::new(0, 3)));
    assert!(!Range::new(3, 3).overlaps(&Range::new(3, 0)));

    // Zero-width and non-zero-width range, overlap.
    assert!(Range::new(1, 4).overlaps(&Range::new(1, 1)));
    assert!(Range::new(4, 1).overlaps(&Range::new(1, 1)));
    assert!(Range::new(1, 1).overlaps(&Range::new(1, 4)));
    assert!(Range::new(1, 1).overlaps(&Range::new(4, 1)));

    assert!(Range::new(1, 4).overlaps(&Range::new(3, 3)));
    assert!(Range::new(4, 1).overlaps(&Range::new(3, 3)));
    assert!(Range::new(3, 3).overlaps(&Range::new(1, 4)));
    assert!(Range::new(3, 3).overlaps(&Range::new(4, 1)));

    // Two zero-width ranges, no overlap.
    assert!(!Range::new(0, 0).overlaps(&Range::new(1, 1)));
    assert!(!Range::new(1, 1).overlaps(&Range::new(0, 0)));

    // Two zero-width ranges, overlap.
    assert!(Range::new(1, 1).overlaps(&Range::new(1, 1)));
}

#[test]
fn test_split_on_matches() {
    let text = Rope::from(" abcd efg wrs   xyz 123 456");

    let selection = Selection::new(vec![Range::new(0, 9), Range::new(11, 20)], 0);

    let result = split_on_matches(text.slice(..), &selection, &Regex::new(r"\s+").unwrap());

    assert_eq!(
        result.ranges(),
        &[
            // We get a leading zero-width range when there's
            // a leading match because ranges are inclusive on
            // the left.  Imagine, for example, if the entire
            // selection range were matched: you'd still want
            // at least one range to remain after the split.
            Range::new(0, 0),
            Range::new(1, 5),
            Range::new(6, 9),
            Range::new(11, 13),
            Range::new(16, 19),
            // In contrast to the comment above, there is no
            // _trailing_ zero-width range despite the trailing
            // match, because ranges are exclusive on the right.
        ]
    );

    assert_eq!(
        result.fragments(text.slice(..)),
        vec!["", "abcd", "efg", "rs", "xyz"]
    );
}
