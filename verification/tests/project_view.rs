use std::cell::RefCell;
use std::rc::Rc;

use dedup::app_state::{
    AppState, AppStatus, FolderLoadResult, GroupView, OccurrenceView, Pane, ScanState, SortKey,
    StartupError, Tier,
};
use dedup::blame::{BlameInfo, BlameProvider, BlameResult};
use dedup::detail_rows::DetailRow;
use dedup::project_view::rows::{
    build_detail_rows, get_or_build_detail_rows, segments_for_range, sort_spans, split_by_tints,
    BlameFields, RunPiece,
};
use dedup::project_view::{
    blame_to_fields, editor_name, fetch_blame_for_occurrence, issues_headline,
    launch_failure_message, llm_sources_available, sidebar_tier_partition, stale_message,
    tier_badge_label, tier_badge_tooltip, worker_report, PersistOutcome, ProjectView, RecentChoice,
    ResetOutcome, ScanEvent, ScanOutcome, ScanStep,
};
use dedup::highlight::{Highlight, HighlightedRun};
use dedup::toast::{FileIssue, FileIssueKind, ToastCommand, ToastKind, ACTION_SHOW_ISSUES};

// ---------------------------------------------------------------------------
// Tints
// ---------------------------------------------------------------------------
fn occ_with_spans(spans: Vec<(usize, usize, u32)>) -> OccurrenceView {
    OccurrenceView {
        path: "x.rs".to_string(),
        start_line: 1,
        end_line: 1,
        alpha_rename_spans: spans,
    }
}

#[test]
fn tier_a_occurrence_has_empty_spans() {
    let occ = occ_with_spans(Vec::new());
    assert!(occ.alpha_rename_spans.is_empty());
    let pieces = split_by_tints(0..40, &occ.alpha_rename_spans);
    assert_eq!(pieces.len(), 1);
    assert!(pieces[0].tint.is_none());
    assert_eq!(pieces[0].range, 0..40);
}

#[test]
fn tier_b_pieces_split_around_spans() {
    let spans = vec![(4, 8, 1), (16, 20, 2), (30, 34, 1)];
    let pieces = split_by_tints(0..40, &spans);

    let mut covered = 0usize;
    let mut last_end = 0usize;
    for p in &pieces {
        assert_eq!(p.range.start, last_end, "pieces must be contiguous");
        assert!(p.range.end > p.range.start);
        last_end = p.range.end;
        covered += p.range.end - p.range.start;
    }
    assert_eq!(last_end, 40);
    assert_eq!(covered, 40);

    let first = pieces.iter().find(|p| p.range == (4..8)).unwrap();
    let third = pieces.iter().find(|p| p.range == (30..34)).unwrap();
    assert_eq!(first.tint, third.tint, "idx=1 twice must match color");
    let middle = pieces.iter().find(|p| p.range == (16..20)).unwrap();
    assert_ne!(middle.tint, first.tint, "idx=2 must differ from idx=1");
}

#[test]
fn spans_outside_run_are_ignored() {
    let spans = vec![(0, 2, 1), (100, 120, 2)];
    let pieces = split_by_tints(10..30, &spans);
    assert_eq!(pieces.len(), 1);
    assert_eq!(pieces[0], RunPiece { range: 10..30, tint: None });
}

#[test]
fn spans_partially_overlap_run() {
    let spans = vec![(5, 15, 1), (25, 35, 2)];
    let pieces = split_by_tints(10..30, &spans);
    assert!(!pieces.is_empty());
    let start = pieces.first().unwrap().range.start;
    let end = pieces.last().unwrap().range.end;
    assert_eq!(start, 10);
    assert_eq!(end, 30);
}

#[test]
fn spans_are_sorted_by_their_first_bytes() {
    let sorted = sort_spans(&vec![(9, 12, 1), (2, 3, 2), (9, 10, 3)]);
    assert_eq!(sorted, vec![(2, 3, 2), (9, 12, 1), (9, 10, 3)]);
}

#[test]
fn segments_carry_color_tint_and_difference() {
    let source = "let a = b;";
    let runs = vec![
        HighlightedRun { start: 0, end: 3, kind: Highlight::Keyword },
        HighlightedRun { start: 3, end: 10, kind: Highlight::Default },
    ];
    let spans = vec![(4usize, 5usize, 1u32)];
    let flags = vec![0..10];
    let segments = segments_for_range(source, &runs, &spans, &flags, 0..10).expect("segments");
    let texts: Vec<&str> = segments.iter().map(|s| s.text.as_str()).collect();
    assert_eq!(texts, vec!["let", " ", "a", " = b;"]);
    assert_eq!(segments[0].fg_color, Highlight::Keyword.color());
    assert!(segments[2].bg_color.is_some());
    assert!(segments[0].bg_color.is_none());
    assert!(segments.iter().all(|s| s.is_diff));
}

// ---------------------------------------------------------------------------
// Rows of the detail pane
// ---------------------------------------------------------------------------
fn occ(path: &str) -> OccurrenceView {
    OccurrenceView {
        path: path.to_string(),
        start_line: 1,
        end_line: 5,
        alpha_rename_spans: Vec::new(),
    }
}

fn group(id: i64, label: &str, occurrences: Vec<OccurrenceView>, hash: u64) -> GroupView {
    GroupView {
        id,
        tier: Tier::A,
        label: label.to_string(),
        occurrences,
        language: None,
        group_hash: Some(hash),
    }
}

fn state_with_two_occurrences(group_id: i64) -> AppState {
    let mut s = AppState::new();
    s.groups = vec![group(group_id, "g", vec![occ("a.rs"), occ("b.rs")], 0x1)];
    s.selected_group = Some(group_id);
    s
}

fn header_indices(rows: &[DetailRow]) -> Vec<usize> {
    rows.iter()
        .enumerate()
        .filter_map(|(i, r)| match r {
            DetailRow::OccurrenceHeader { .. } => Some(i),
            _ => None,
        })
        .collect()
}

fn unread(n: usize) -> (Vec<Option<String>>, Vec<Option<String>>, Vec<BlameFields>) {
    (vec![None; n], vec![None; n], vec![(None, None); n])
}

fn rows_of(state: &AppState, group_id: i64, occurrences: &Vec<OccurrenceView>) -> Vec<DetailRow> {
    let (sources, hints, blames) = unread(occurrences.len());
    build_detail_rows(state, group_id, occurrences, &sources, &hints, &blames).expect("rows")
}

fn cached_rows_of(
    state: &mut AppState,
    group_id: i64,
    occurrences: &Vec<OccurrenceView>,
) -> Rc<Vec<DetailRow>> {
    let (sources, hints, blames) = unread(occurrences.len());
    get_or_build_detail_rows(state, group_id, occurrences, &sources, &hints, &blames).expect("rows")
}

#[test]
fn build_detail_rows_none_collapsed_has_code_between_headers() {
    let state = state_with_two_occurrences(1);
    let occurrences = state.selected_occurrences();
    let rows = rows_of(&state, 1, &occurrences);

    assert!(matches!(rows[0], DetailRow::Summary(_)));
    let headers = header_indices(&rows);
    assert_eq!(headers.len(), 2);
    assert!(matches!(rows[headers[0] + 1], DetailRow::Unavailable));
    assert!(matches!(rows[headers[1] + 1], DetailRow::Unavailable));
    assert!(matches!(rows[headers[1] - 1], DetailRow::Gap));
}

#[test]
fn build_detail_rows_one_collapsed_keeps_both_headers() {
    let mut state = state_with_two_occurrences(1);
    state.toggle_occurrence_collapse(1, 0);
    let occurrences = state.selected_occurrences();
    let rows = rows_of(&state, 1, &occurrences);

    let headers = header_indices(&rows);
    assert_eq!(headers.len(), 2);
    let after_first = &rows[headers[0] + 1];
    assert!(
        !matches!(after_first, DetailRow::Unavailable | DetailRow::CodeLine { .. }),
        "collapsed header should not be followed by code/unavailable, got {after_first:?}"
    );
    assert!(matches!(rows[headers[1] + 1], DetailRow::Unavailable));
}

#[test]
fn build_detail_rows_all_collapsed_has_only_summary_plus_headers() {
    let mut state = state_with_two_occurrences(1);
    state.collapse_all_in_active_group();
    let occurrences = state.selected_occurrences();
    let rows = rows_of(&state, 1, &occurrences);

    assert_eq!(rows.len(), 3, "rows: {rows:#?}");
    assert!(matches!(rows[0], DetailRow::Summary(_)));
    assert!(matches!(rows[1], DetailRow::OccurrenceHeader { .. }));
    assert!(matches!(rows[2], DetailRow::OccurrenceHeader { .. }));
}

#[test]
fn detail_rows_cache_hits_on_repeated_render() {
    let mut state = state_with_two_occurrences(1);
    let occurrences = state.selected_occurrences();
    let first = cached_rows_of(&mut state, 1, &occurrences);
    let second = cached_rows_of(&mut state, 1, &occurrences);
    assert!(Rc::ptr_eq(&first, &second), "second render should reuse the cached Rc");
}

#[test]
fn detail_rows_cache_misses_on_group_change() {
    let mut state = AppState::new();
    state.groups = vec![
        group(1, "g1", vec![occ("a.rs")], 0x1),
        group(2, "g2", vec![occ("b.rs"), occ("c.rs")], 0x2),
    ];
    state.selected_group = Some(1);

    let occs1 = state.selected_occurrences();
    let first = cached_rows_of(&mut state, 1, &occs1);

    state.selected_group = Some(2);
    let occs2 = state.selected_occurrences();
    let second = cached_rows_of(&mut state, 2, &occs2);

    assert!(!Rc::ptr_eq(&first, &second), "group change must invalidate cache");
    assert!(second.len() > first.len());
}

#[test]
fn detail_rows_cache_misses_on_collapse_toggle() {
    let mut state = state_with_two_occurrences(1);
    let occurrences = state.selected_occurrences();
    let first = cached_rows_of(&mut state, 1, &occurrences);

    state.toggle_occurrence_collapse(1, 0);
    let second = cached_rows_of(&mut state, 1, &occurrences);

    assert!(!Rc::ptr_eq(&first, &second), "collapse toggle must invalidate cache");
}

#[test]
fn detail_rows_cache_misses_on_selection_toggle() {
    let mut state = state_with_two_occurrences(1);
    let occurrences = state.selected_occurrences();
    let first = cached_rows_of(&mut state, 1, &occurrences);

    state.toggle_occurrence(1, 0);
    let second = cached_rows_of(&mut state, 1, &occurrences);
    assert!(!Rc::ptr_eq(&first, &second), "selection toggle must invalidate cache");
}

#[test]
fn detail_rows_cache_misses_on_occurrence_list_change() {
    let mut state = state_with_two_occurrences(1);
    let occs1 = state.selected_occurrences();
    let first = cached_rows_of(&mut state, 1, &occs1);

    state.groups[0].occurrences.push(occ("c.rs"));
    let occs2 = state.selected_occurrences();
    let second = cached_rows_of(&mut state, 1, &occs2);

    assert!(!Rc::ptr_eq(&first, &second), "occurrence list change must invalidate cache");
}

#[test]
fn detail_rows_cache_round_trips_on_collapse_then_expand() {
    let mut state = state_with_two_occurrences(1);
    let occurrences = state.selected_occurrences();
    let first = cached_rows_of(&mut state, 1, &occurrences);

    state.toggle_occurrence_collapse(1, 0);
    let _mid = cached_rows_of(&mut state, 1, &occurrences);
    state.toggle_occurrence_collapse(1, 0);
    let third = cached_rows_of(&mut state, 1, &occurrences);

    assert_eq!(first.len(), third.len());
}

#[test]
fn rows_show_the_lines_of_a_source() {
    let mut state = state_with_two_occurrences(1);
    state.detail_config.context_lines = 0;
    state.toggle_occurrence(1, 0);
    let mut occurrences = state.selected_occurrences();
    occurrences[0].start_line = 2;
    occurrences[0].end_line = 2;
    let sources = vec![Some("fn a() {}\nlet x = 1;\n".to_string()), None];
    let hints = vec![Some("rust".to_string()), None];
    let blames = vec![(Some("who".to_string()), Some("why".to_string())), (None, None)];
    let rows =
        build_detail_rows(&state, 1, &occurrences, &sources, &hints, &blames).expect("rows");
    assert!(matches!(&rows[0], DetailRow::Summary(text) if text == "2 occurrences"));
    match &rows[1] {
        DetailRow::OccurrenceHeader { label, checked, path, blame_overlay, blame_tooltip, .. } => {
            assert_eq!(label, "a.rs:L2\u{2013}2");
            assert!(*checked);
            assert_eq!(path, "a.rs");
            assert_eq!(blame_overlay.as_deref(), Some("who"));
            assert_eq!(blame_tooltip.as_deref(), Some("why"));
        }
        other => panic!("unexpected {other:?}"),
    }
    match &rows[2] {
        DetailRow::CodeLine { line_number, is_context, segments } => {
            assert_eq!(*line_number, 2);
            assert!(!is_context);
            let text: String = segments.iter().map(|s| s.text.as_str()).collect();
            assert_eq!(text, "let x = 1;");
            assert_eq!(segments[0].text, "let");
            assert_eq!(segments[0].fg_color, Highlight::Keyword.color());
        }
        other => panic!("unexpected {other:?}"),
    }
}

// ---------------------------------------------------------------------------
// The sidebar
// ---------------------------------------------------------------------------
fn gv(id: i64, tier: Tier, label: &str) -> GroupView {
    GroupView {
        id,
        tier,
        label: label.into(),
        occurrences: vec![OccurrenceView {
            path: "x.rs".to_string(),
            start_line: 1,
            end_line: 2,
            alpha_rename_spans: Vec::new(),
        }],
        language: None,
        group_hash: Some(id as u64),
    }
}

#[test]
fn partition_idle_splits_visible_by_tier() {
    let mut s = AppState::new();
    s.groups = vec![
        gv(1, Tier::A, "a1"),
        gv(2, Tier::B, "b1"),
        gv(3, Tier::A, "a2"),
        gv(4, Tier::B, "b2"),
    ];
    let (tier_b, tier_a) = sidebar_tier_partition(&s);
    let ids_b: Vec<i64> = tier_b.iter().map(|g| g.id).collect();
    let ids_a: Vec<i64> = tier_a.iter().map(|g| g.id).collect();
    assert_eq!(ids_b, vec![2, 4]);
    assert_eq!(ids_a, vec![1, 3]);
}

#[test]
fn partition_idle_respects_search_filter() {
    let mut s = AppState::new();
    s.groups = vec![
        gv(1, Tier::A, "apple"),
        gv(2, Tier::B, "banana"),
        gv(3, Tier::A, "apricot"),
    ];
    s.set_search_query("ap".into());
    let (tier_b, tier_a) = sidebar_tier_partition(&s);
    assert!(tier_b.is_empty(), "tier_b should be empty, got {tier_b:?}");
    let ids_a: Vec<i64> = tier_a.iter().map(|g| g.id).collect();
    assert_eq!(ids_a, vec![1, 3]);
}

#[test]
fn partition_running_uses_streaming_buffer_for_tier_a() {
    let mut s = AppState::new();
    s.groups = vec![gv(10, Tier::B, "b_cached")];
    s.groups_streaming = vec![gv(99, Tier::A, "a_stream")];
    let _ = s.begin_scan(0).unwrap();
    assert!(s.scan_state.is_running());
    s.groups_streaming = vec![gv(99, Tier::A, "a_stream")];

    let (tier_b, tier_a) = sidebar_tier_partition(&s);
    let ids_b: Vec<i64> = tier_b.iter().map(|g| g.id).collect();
    let ids_a: Vec<i64> = tier_a.iter().map(|g| g.id).collect();
    assert_eq!(ids_b, vec![10]);
    assert_eq!(ids_a, vec![99]);
}

#[test]
fn sidebar_carries_both_tiers_and_badge_helpers_match() {
    let mut s = AppState::new();
    s.groups = vec![gv(1, Tier::A, "a"), gv(2, Tier::B, "b")];
    assert_eq!(s.tier_a_groups().len(), 1);
    assert_eq!(s.tier_b_groups().len(), 1);
    assert_eq!(tier_badge_label(Tier::A), "A");
    assert_eq!(tier_badge_label(Tier::B), "B");
    assert_eq!(tier_badge_tooltip(Tier::A), "Tier A \u{2014} byte-level match");
    assert_eq!(
        tier_badge_tooltip(Tier::B),
        "Tier B \u{2014} AST match, alpha-renamed locals may differ"
    );
}

// ---------------------------------------------------------------------------
// Blame
// ---------------------------------------------------------------------------
struct Recorder {
    calls: RefCell<Vec<(String, String, u32)>>,
}

impl BlameProvider for Recorder {
    fn blame(&self, folder: &str, rel_path: &str, start_line: u32) -> BlameResult {
        self.calls.borrow_mut().push((folder.to_string(), rel_path.to_string(), start_line));
        Ok(Some(BlameInfo {
            author: "Ann".to_string(),
            short_sha: "01234567".to_string(),
            date: "2024-01-02".to_string(),
            summary: String::new(),
        }))
    }
}

#[test]
fn blame_is_asked_for_once_and_shown() {
    let provider = Recorder { calls: RefCell::new(Vec::new()) };
    let mut state = AppState::new();
    let shown = fetch_blame_for_occurrence(&mut state, &provider, &occ("a.rs"), None);
    assert_eq!(shown, (None, None));
    state.current_folder = Some("/repo".to_string());
    for _ in 0..2 {
        let shown = fetch_blame_for_occurrence(&mut state, &provider, &occ("a.rs"), None);
        assert_eq!(shown, (Some("Ann · 01234567 · 2024-01-02".to_string()), None));
    }
    assert_eq!(
        *provider.calls.borrow(),
        vec![("/repo".to_string(), "a.rs".to_string(), 1)]
    );
    assert_eq!(blame_to_fields(None), (None, None));
}

// ---------------------------------------------------------------------------
// The window
// ---------------------------------------------------------------------------
fn loaded(folder: &str, status: AppStatus) -> FolderLoadResult {
    FolderLoadResult {
        folder: folder.to_string(),
        groups: vec![gv(1, Tier::A, "a")],
        dismissed: Vec::new(),
        status,
    }
}

#[test]
fn opening_a_folder_makes_it_the_newest_recent_project() {
    let mut view = ProjectView::new();
    assert!(view.apply_folder("/repo", loaded("/repo", AppStatus::Loaded), 0, 77));
    assert_eq!(view.state.recent_projects.entries[0].path, "/repo");
    assert_eq!(view.state.recent_projects.entries[0].opened_at, 77);
    assert_eq!(view.state.selected_group, Some(1));
    assert!(view.state.toasts.is_empty());
    assert_eq!(view.cache_dir().as_deref(), Some("/repo/.dedup"));
}

#[test]
fn a_damaged_cache_is_announced() {
    let mut view = ProjectView::new();
    let status = AppStatus::Error("file is Corrupt".to_string());
    assert!(!view.apply_folder("/repo", loaded("/repo", status), 0, 0));
    assert_eq!(view.state.toasts.len(), 1);
    let toast = &view.state.toasts.toasts[0];
    assert_eq!(toast.title, "Cache is corrupted. Delete .dedup/ and rescan?");
    assert_eq!(toast.kind, ToastKind::Error);
    assert!(view.state.recent_projects.entries.is_empty());
}

#[test]
fn a_cache_that_cannot_be_opened_is_announced() {
    let mut view = ProjectView::new();
    let status = AppStatus::Error("locked".to_string());
    assert!(!view.apply_folder("/repo", loaded("/repo", status), 0, 0));
    let toast = &view.state.toasts.toasts[0];
    assert_eq!(toast.title, "Could not open cache");
    assert_eq!(toast.body.as_deref(), Some("locked"));
    assert!(toast.action.is_none());
}

#[test]
fn a_newer_cache_is_announced_and_remembered() {
    let mut view = ProjectView::new();
    let status = AppStatus::NewerCache { found: 5, supported: 3 };
    assert!(view.apply_folder("/repo", loaded("/repo", status), 0, 0));
    assert_eq!(
        view.state.toasts.toasts[0].title,
        "Cache created by newer Dedup version. Rescan?"
    );
    assert_eq!(view.state.recent_projects.entries.len(), 1);
}

#[test]
fn recent_projects_open_or_are_announced_as_gone() {
    let mut view = ProjectView::new();
    assert!(matches!(view.open_recent(0, true, 0), RecentChoice::Nothing));
    view.state.recent_projects.push("/gone", 1);
    assert!(matches!(view.open_recent(0, true, 0), RecentChoice::Open(p) if p == "/gone"));
    assert!(matches!(view.open_recent(0, false, 0), RecentChoice::Announced));
    assert_eq!(view.state.recent_banner.as_ref().map(|b| b.path.as_str()), Some("/gone"));
    assert_eq!(view.state.toasts.toasts[0].title, stale_message("/gone"));
    assert!(view.remove_stale_recent());
    assert!(view.state.recent_projects.entries.is_empty());
    assert!(!view.remove_stale_recent());
}

#[test]
fn a_scan_runs_reports_and_ends() {
    let mut view = ProjectView::new();
    assert_eq!(view.start_scan(5), None);
    view.state.current_folder = Some("/repo".to_string());
    assert_eq!(view.start_scan(1_000).as_deref(), Some("/repo"));
    assert_eq!(view.start_scan(1_001), None);
    assert_eq!(
        view.on_scan_event(ScanEvent::TierAStream(vec![gv(9, Tier::A, "a")]), 1_500),
        ScanStep::Continue
    );
    assert_eq!(view.state.groups_streaming.len(), 1);
    let issues = vec![FileIssue {
        path: "a.rs".to_string(),
        kind: FileIssueKind::Utf8,
        message: "bad".to_string(),
    }];
    let done = ScanEvent::Completed { group_count: 3, file_count: 8, issues };
    assert_eq!(view.on_scan_event(done, 4_000), ScanStep::Reload);
    assert_eq!(
        view.state.scan_state,
        ScanState::Completed { group_count: 3, file_count: 8, duration: 3_000 }
    );
    assert_eq!(view.state.toasts.len(), 2);
    assert_eq!(
        view.state.toasts.toasts[0].title,
        "Scan complete \u{2014} 3 groups across 8 files in 3s."
    );
    assert_eq!(view.state.toasts.toasts[1].title, issues_headline(1));
    let id = view.state.toasts.toasts[1].id;
    assert_eq!(
        view.dispatch_toast_action(ACTION_SHOW_ISSUES, id),
        ToastCommand::ShowIssues
    );
    assert!(view.state.scan_issues_open);
    assert_eq!(view.state.toasts.len(), 1);
    let text = view.copy_scan_issues(5_000).expect("text");
    assert!(text.contains("- `a.rs`: Utf8 \u{2014} bad"));
    view.close_scan_issues();
    assert!(!view.state.scan_issues_open);
}

#[test]
fn a_scan_can_be_cancelled() {
    let mut view = ProjectView::new();
    view.state.current_folder = Some("/repo".to_string());
    assert!(!view.request_cancel(1));
    view.start_scan(10);
    assert!(view.request_cancel(20));
    assert_eq!(view.state.scan_state, ScanState::Cancelling { started_at: 20 });
    assert_eq!(view.on_scan_event(ScanEvent::Cancelled, 30), ScanStep::Done);
    assert_eq!(view.state.scan_state, ScanState::Idle);
}

#[test]
fn a_scan_that_fails_is_announced() {
    let mut view = ProjectView::new();
    view.state.current_folder = Some("/repo".to_string());
    view.start_scan(10);
    assert_eq!(
        view.on_scan_event(ScanEvent::ScanFailed("no disk".to_string()), 20),
        ScanStep::Continue
    );
    assert_eq!(view.state.toasts.toasts[0].title, "Scan failed");
    assert_eq!(view.state.toasts.toasts[0].body.as_deref(), Some("no disk"));
    assert!(view.state.scan_state.is_running());
    view.on_scan_disconnected();
    assert_eq!(view.state.scan_state, ScanState::Idle);
    view.start_scan(30);
    view.on_scan_event(ScanEvent::BackgroundPanic("boom".to_string()), 40);
    assert_eq!(view.state.toasts.toasts[1].title, "Scan crashed (background panic)");
    view.start_scan(50);
    view.on_scan_disconnected();
    assert_eq!(view.state.scan_state, ScanState::Idle);
}

#[test]
fn a_result_that_could_not_be_stored_is_taken() {
    let mut view = ProjectView::new();
    view.state.current_folder = Some("/repo".to_string());
    view.start_scan(1_000);
    let report =
        worker_report(&ScanOutcome::Finished, &PersistOutcome::WriteFailed("full".to_string()));
    assert!(report.completed);
    let failure = ScanEvent::ScanFailed(report.failure.expect("a failure"));
    assert_eq!(view.on_scan_event(failure, 3_000), ScanStep::Continue);
    let done = ScanEvent::Completed { group_count: 2, file_count: 5, issues: Vec::new() };
    assert_eq!(view.on_scan_event(done, 4_000), ScanStep::Reload);
    assert_eq!(
        view.state.scan_state,
        ScanState::Completed { group_count: 2, file_count: 5, duration: 3_000 }
    );
    assert_eq!(view.state.toasts.len(), 2);
    assert_eq!(
        view.state.toasts.toasts[0].body.as_deref(),
        Some("Scan succeeded but cache write failed: full")
    );
    view.on_scan_disconnected();
    assert!(!view.state.scan_state.is_active());
    assert_ne!(view.state.scan_state, ScanState::Idle);
}

#[test]
fn the_worker_reports_what_could_not_be_stored() {
    let r = worker_report(&ScanOutcome::Finished, &PersistOutcome::WriteFailed("full".to_string()));
    assert_eq!(r.failure.as_deref(), Some("Scan succeeded but cache write failed: full"));
    assert!(r.completed && !r.cancelled);
    let r = worker_report(&ScanOutcome::Finished, &PersistOutcome::OpenFailed("x".to_string()));
    assert_eq!(r.failure.as_deref(), Some("Scan succeeded but cache open failed: x"));
    let r = worker_report(&ScanOutcome::Cancelled, &PersistOutcome::Stored);
    assert!(r.cancelled && !r.completed && r.failure.is_none());
    let r = worker_report(&ScanOutcome::Failed("e".to_string()), &PersistOutcome::Stored);
    assert_eq!(r.failure.as_deref(), Some("e"));
    assert!(!r.completed);
}

#[test]
fn the_editor_comes_from_the_environment() {
    assert_eq!(editor_name(Some("nano"), Some("code")), "nano");
    assert_eq!(editor_name(Some(""), Some("code")), "code");
    assert_eq!(editor_name(None, None), "vi");
    assert_eq!(launch_failure_message("vi", "denied"), "Failed to launch vi: denied");
}

#[test]
fn a_broken_configuration_can_be_fixed_or_reset() {
    let error = || StartupError { path: "/c.toml".to_string(), message: "bad".to_string() };
    let mut view = ProjectView::new();
    view.startup_fix_config("vi", None, 0);
    assert!(view.state.toasts.is_empty());
    view.state.startup_error = Some(error());
    view.startup_fix_config("vi", None, 0);
    assert_eq!(
        view.state.toasts.toasts[0].title,
        "Opened /c.toml in vi. Restart dedup to reload."
    );
    view.startup_reset_config(ResetOutcome::Failed("cannot write".to_string()), 0);
    assert_eq!(view.state.toasts.toasts[1].title, "cannot write");
    view.startup_reset_config(ResetOutcome::StillBroken(error()), 0);
    assert!(view.state.startup_error.is_some());
    view.startup_reset_config(ResetOutcome::Loaded, 0);
    assert!(view.state.startup_error.is_none());
    assert_eq!(view.state.toasts.toasts[2].title, "Reset config to defaults.");
}

#[test]
fn toasts_can_be_dismissed_from_the_window() {
    let mut view = ProjectView::new();
    assert!(!view.dismiss_top_toast());
    view.editor_failed("no editor", 0);
    view.delete_cache_failed("/repo/.dedup", "busy", 0);
    assert_eq!(view.state.toasts.toasts[1].title, "Failed to delete /repo/.dedup: busy");
    assert!(view.dismiss_top_toast());
    assert_eq!(view.state.toasts.toasts[0].title, "no editor");
    assert!(!view.tick_toasts(u64::MAX));
    view.state.push_info_toast("bye".to_string(), 0);
    assert!(view.tick_toasts(3_000));
    assert_eq!(view.state.toasts.len(), 1);
    assert_eq!(view.state.editor_banner.as_ref().map(|b| b.message.as_str()), Some("no editor"));
    view.dismiss_editor_banner();
    assert!(view.state.editor_banner.is_none());
}

#[test]
fn the_query_is_typed_and_taken_back() {
    let mut view = ProjectView::new();
    assert!(!view.search_input_backspace());
    view.search_input_push('a');
    view.search_input_push('é');
    assert_eq!(view.state.search_query, "aé");
    assert!(view.search_input_backspace());
    assert_eq!(view.state.search_query, "a");
    view.blur_search();
    assert_eq!(view.state.search_query, "");
}

#[test]
fn panes_and_dialogs_open_and_close() {
    let mut view = ProjectView::new();
    view.focus_detail();
    assert_eq!(view.state.focused_pane, Pane::Detail);
    view.focus_sidebar();
    assert_eq!(view.state.focused_pane, Pane::Sidebar);
    view.toggle_sidebar();
    assert!(view.state.sidebar_hidden);
    view.toggle_sort_popup();
    assert!(view.state.sort_popup_open);
    view.set_sort_key(SortKey::Alphabetical);
    assert_eq!(view.state.sort_key, SortKey::Alphabetical);
    assert!(!view.state.sort_popup_open);
    view.toggle_dismissed();
    assert!(view.state.dismissed_expanded);
    view.open_preferences();
    view.open_config_in_editor(Some("no editor".to_string()));
    assert!(view.state.preferences_open);
    view.open_config_in_editor(None);
    assert!(!view.state.preferences_open);
}

#[test]
fn the_selected_files_open_in_the_editor() {
    let mut view = ProjectView::new();
    view.state.groups = vec![gv(4, Tier::A, "a")];
    view.select_group(4);
    assert_eq!(view.open_selected_in_editor(), vec![("x.rs".to_string(), 1)]);
    view.focus_detail();
    assert!(view.open_selected_in_editor().is_empty());
    view.close_group_detail();
    assert_eq!(view.state.selected_group, None);
}

#[test]
fn prompts_are_copied_only_when_complete() {
    let mut view = ProjectView::new();
    view.state.groups = vec![gv(4, Tier::A, "a")];
    assert_eq!(view.copy_group_as_llm_prompt(5, &Vec::new(), 0), None);
    assert!(view.state.toasts.is_empty());
    assert_eq!(view.copy_group_as_llm_prompt(4, &vec![None], 0), None);
    assert_eq!(view.state.toasts.toasts[0].kind, ToastKind::Warning);
    let prompt = view.copy_group_as_llm_prompt(4, &vec![Some("x".to_string())], 0).expect("prompt");
    assert!(prompt.ends_with("- x.rs:1-2\n"));
    assert_eq!(view.state.toasts.toasts[1].title, "Copied LLM prompt to clipboard.");
}

#[test]
fn prompts_need_a_folder_and_every_file() {
    let mut state = AppState::new();
    state.groups = vec![gv(4, Tier::A, "a")];
    assert!(!llm_sources_available(&state, 4, &vec![true]));
    state.current_folder = Some("/repo".to_string());
    assert!(llm_sources_available(&state, 4, &vec![true]));
    assert!(!llm_sources_available(&state, 4, &vec![false]));
    assert!(!llm_sources_available(&state, 5, &vec![true]));
}
