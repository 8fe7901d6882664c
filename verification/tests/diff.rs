use dedup::app_state::OccurrenceView;
use dedup::detail_rows::diff::{diff, line_for_pane};

fn occ(s: i64, e: i64) -> OccurrenceView {
    OccurrenceView {
        path: "x.rs".to_string(),
        start_line: s,
        end_line: e,
        alpha_rename_spans: Vec::new(),
    }
}

#[test]
fn two_identical_occurrences_produce_no_flags() {
    let a = "fn f() {\n    a + b\n}\n".to_string();
    let b = a.clone();
    let occs = vec![occ(1, 3), occ(1, 3)];
    let flags = diff(&occs, &vec![Some(a), Some(b)], 0);
    assert_eq!(flags.len(), 2);
    assert!(flags[0].is_empty(), "identical A must have no flags");
    assert!(flags[1].is_empty(), "identical B must have no flags");
}

#[test]
fn two_occurrences_flag_only_differing_line() {
    let a = "fn f() {\n    a + b\n}\n".to_string();
    let b = "fn f() {\n    x + y\n}\n".to_string();
    let occs = vec![occ(1, 3), occ(1, 3)];
    let flags = diff(&occs, &vec![Some(a.clone()), Some(b.clone())], 0);
    assert_eq!(flags[0].len(), 1, "A should flag one line");
    assert_eq!(flags[1].len(), 1, "B should flag one line");

    let fa = &flags[0][0];
    assert_eq!(&a[fa.clone()], "    a + b");
    let fb = &flags[1][0];
    assert_eq!(&b[fb.clone()], "    x + y");
}

#[test]
fn three_occurrences_majority_match_still_flags_odd_one() {
    let a = "fn f() {\n    a + b\n}\n".to_string();
    let b = a.clone();
    let c = "fn f() {\n    x + y\n}\n".to_string();
    let occs = vec![occ(1, 3), occ(1, 3), occ(1, 3)];
    let flags = diff(
        &occs,
        &vec![Some(a.clone()), Some(b.clone()), Some(c.clone())],
        0,
    );
    assert_eq!(flags[0].len(), 1);
    assert_eq!(flags[1].len(), 1);
    assert_eq!(flags[2].len(), 1);
}

#[test]
fn single_occurrence_has_no_flags() {
    let a = "fn f() {\n    a\n}\n".to_string();
    let occs = vec![occ(1, 3)];
    let flags = diff(&occs, &vec![Some(a)], 0);
    assert_eq!(flags.len(), 1);
    assert!(flags[0].is_empty());
}

#[test]
fn missing_source_produces_empty_flags_for_that_occurrence() {
    let a = "fn f() {\n    a\n}\n".to_string();
    let b = "fn f() {\n    b\n}\n".to_string();
    let occs = vec![occ(1, 3), occ(1, 3), occ(1, 3)];
    let flags = diff(&occs, &vec![Some(a), None, Some(b)], 0);
    assert!(flags[1].is_empty());
    assert_eq!(flags[0].len(), 1);
    assert_eq!(flags[2].len(), 1);
}

#[test]
fn unequal_focus_lengths_dont_panic() {
    let a = "l1\nl2\nl3\n".to_string();
    let b = "l1\nl2\n".to_string();
    let occs = vec![occ(1, 3), occ(1, 2)];
    let flags = diff(&occs, &vec![Some(a), Some(b)], 0);
    assert_eq!(flags[0].len(), 1);
    assert!(flags[1].is_empty());
}

#[test]
fn context_lines_are_not_diffed() {
    let a = "ctx_a\nfocus\ntail_a\n".to_string();
    let b = "ctx_b\nfocus\ntail_b\n".to_string();
    let occs = vec![occ(2, 2), occ(2, 2)];
    let flags = diff(&occs, &vec![Some(a), Some(b)], 1);
    assert!(flags[0].is_empty(), "context lines must not drive diff");
    assert!(flags[1].is_empty());
}

#[test]
fn mixed_language_bytes_dont_panic() {
    let a = "fn f() {\n    ok\n}\n".to_string();
    let b = "def f():\n    ok\n".to_string();
    let occs = vec![occ(1, 3), occ(1, 2)];
    let flags = diff(&occs, &vec![Some(a), Some(b)], 0);
    assert!(flags[0].len() >= 1);
    assert!(flags[1].len() >= 1);
}

#[test]
fn flags_are_mutual_between_two_panes() {
    let a = "one\ntwo\nthree\n".to_string();
    let b = "one\n2\n3\n".to_string();
    let flags = diff(&vec![occ(1, 3), occ(1, 3)], &vec![Some(a), Some(b)], 2);
    assert_eq!(flags[0], vec![4..7, 8..13]);
    assert_eq!(flags[1], vec![4..5, 6..7]);
}

#[test]
fn line_numbers_are_fitted_to_the_pane() {
    assert_eq!(line_for_pane(-4), 1);
    assert_eq!(line_for_pane(0), 1);
    assert_eq!(line_for_pane(17), 17);
    assert_eq!(line_for_pane(i64::MAX), u32::MAX);
    assert_eq!(line_for_pane(1 << 32), u32::MAX);
}
