use dedup::detail::{extract_with_context, line_starts, LineKind};

fn fifty_line_file() -> String {
    (1..=50).map(|i| format!("line-{i}\n")).collect::<Vec<_>>().join("")
}

#[test]
fn line_starts_matches_expected_offsets() {
    let src = "a\nbb\nccc\n";
    let starts = line_starts(src);
    assert_eq!(starts, vec![0, 2, 5, 9, 9]);
    assert_eq!(line_starts(""), vec![0, 0]);
    let src2 = "hi\nthere";
    let starts2 = line_starts(src2);
    assert_eq!(starts2, vec![0, 3, src2.len()]);
}

#[test]
fn context_of_three_around_midfile_range() {
    let src = fifty_line_file();
    let slice = extract_with_context(&src, 20, 25, 3);
    assert_eq!(slice.first_line, 17);
    assert_eq!(slice.last_line, 28);
    assert_eq!(slice.focus_start, 20);
    assert_eq!(slice.focus_end, 25);

    let line_nos: Vec<u32> = slice.lines.iter().map(|l| l.line_number).collect();
    assert_eq!(line_nos, (17..=28).collect::<Vec<_>>());

    let before: Vec<u32> = slice
        .lines
        .iter()
        .filter(|l| l.kind == LineKind::Context && l.line_number < 20)
        .map(|l| l.line_number)
        .collect();
    assert_eq!(before, vec![17, 18, 19]);

    let after: Vec<u32> = slice
        .lines
        .iter()
        .filter(|l| l.kind == LineKind::Context && l.line_number > 25)
        .map(|l| l.line_number)
        .collect();
    assert_eq!(after, vec![26, 27, 28]);

    for line in &slice.lines {
        assert!(
            !src.as_bytes()[line.byte_range.clone()].contains(&b'\n'),
            "line {} byte range should exclude trailing newline",
            line.line_number
        );
        let text = &src[line.byte_range.clone()];
        assert_eq!(text, format!("line-{}", line.line_number));
    }
}

#[test]
fn range_at_file_start_clamps_before_lines() {
    let src = fifty_line_file();
    let slice = extract_with_context(&src, 1, 5, 3);
    assert_eq!(slice.first_line, 1);
    assert_eq!(slice.last_line, 8);
    assert_eq!(slice.focus_start, 1);
    assert_eq!(slice.focus_end, 5);
    let before: Vec<u32> = slice
        .lines
        .iter()
        .filter(|l| l.kind == LineKind::Context && l.line_number < 1)
        .map(|l| l.line_number)
        .collect();
    assert!(before.is_empty());
    let after: Vec<u32> = slice
        .lines
        .iter()
        .filter(|l| l.kind == LineKind::Context)
        .map(|l| l.line_number)
        .collect();
    assert_eq!(after, vec![6, 7, 8]);
}

#[test]
fn range_at_file_end_clamps_after_lines() {
    let src = fifty_line_file();
    let slice = extract_with_context(&src, 48, 50, 3);
    assert_eq!(slice.first_line, 45);
    assert_eq!(slice.last_line, 50);
    let focus: Vec<u32> = slice
        .lines
        .iter()
        .filter(|l| l.kind == LineKind::Focus)
        .map(|l| l.line_number)
        .collect();
    assert_eq!(focus, vec![48, 49, 50]);
    let ctx: Vec<u32> = slice
        .lines
        .iter()
        .filter(|l| l.kind == LineKind::Context)
        .map(|l| l.line_number)
        .collect();
    assert_eq!(ctx, vec![45, 46, 47]);
}

#[test]
fn zero_context_returns_focus_only() {
    let src = fifty_line_file();
    let slice = extract_with_context(&src, 10, 12, 0);
    assert_eq!(slice.first_line, 10);
    assert_eq!(slice.last_line, 12);
    assert_eq!(slice.lines.len(), 3);
    for line in &slice.lines {
        assert_eq!(line.kind, LineKind::Focus);
    }
}

#[test]
fn byte_safe_with_multibyte_chars() {
    let src = "α\nβ\nγ\n";
    let slice = extract_with_context(src, 2, 2, 1);
    assert_eq!(slice.first_line, 1);
    assert_eq!(slice.last_line, 3);
    for line in &slice.lines {
        let _ = &src[line.byte_range.clone()];
    }
    assert_eq!(&src[slice.lines[0].byte_range.clone()], "α");
    assert_eq!(&src[slice.lines[1].byte_range.clone()], "β");
    assert_eq!(&src[slice.lines[2].byte_range.clone()], "γ");
}

#[test]
fn stale_range_past_end_still_renders() {
    let src = fifty_line_file();
    let slice = extract_with_context(&src, 45, 60, 2);
    assert_eq!(slice.focus_end, 50);
    assert!(slice.last_line <= 50);
}

#[test]
fn swapped_range_is_normalized() {
    let src = fifty_line_file();
    let swapped = extract_with_context(&src, 20, 10, 2);
    let normal = extract_with_context(&src, 10, 20, 2);
    assert_eq!(swapped, normal);
}

#[test]
fn an_empty_source_has_one_empty_focus_line() {
    let slice = extract_with_context("", 1, 1, 3);
    assert_eq!(slice.first_line, 1);
    assert_eq!(slice.last_line, 1);
    assert_eq!(slice.lines.len(), 1);
    assert_eq!(slice.lines[0].byte_range, 0..0);
    assert_eq!(slice.lines[0].kind, LineKind::Focus);
}

#[test]
fn windows_hold_their_focus() {
    let src = fifty_line_file();
    for context in [0usize, 1, 7] {
        let slice = extract_with_context(&src, 30, 33, context);
        let focus = slice.lines.iter().filter(|l| l.kind == LineKind::Focus).count();
        assert_eq!(focus, 4);
        assert_eq!(slice.lines.len(), 4 + 2 * context);
    }
}

#[test]
fn a_window_takes_any_number_of_lines() {
    for context in [2usize, 4_294_967_295, 4_294_967_296, usize::MAX] {
        let slice = extract_with_context("a\nb\nc\n", 2, 2, context);
        assert_eq!((slice.first_line, slice.last_line), (1, 3));
    }
    let slice = extract_with_context("a\nb\nc\n", u32::MAX, u32::MAX, 0);
    assert_eq!((slice.first_line, slice.last_line), (3, 3));
}
