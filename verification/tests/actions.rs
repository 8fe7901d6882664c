use dedup::app_state::{
    AppState, AppStatus, FolderLoadResult, GroupView, OccurrenceDismissal, OccurrenceView, Pane,
    SuppressionView, Tier,
};
use dedup::project_view::widgets::sidebar;
use dedup::project_view::ProjectView;
use dedup::suppressions_view::dismissed_rows;

fn occ(path: &str, line: i64) -> OccurrenceView {
    OccurrenceView {
        path: path.to_string(),
        start_line: line,
        end_line: line + 4,
        alpha_rename_spans: Vec::new(),
    }
}

fn group(id: i64, label: &str, hash: Option<u64>) -> GroupView {
    GroupView {
        id,
        tier: if id % 2 == 0 { Tier::B } else { Tier::A },
        label: label.to_string(),
        occurrences: vec![occ("a.rs", 3), occ("b.rs", 7)],
        language: None,
        group_hash: hash,
    }
}

fn suppression(hash: u64, id: Option<i64>) -> SuppressionView {
    SuppressionView {
        hash,
        hash_hex: format!("{hash:016x}"),
        last_group_id: id,
        dismissed_at: 0,
        occurrences: vec![occ("a.rs", 1)],
        occurrence_dismissals: vec![
            OccurrenceDismissal { path: "a.rs".to_string(), dismissed_at: 1 },
            OccurrenceDismissal { path: "b.rs".to_string(), dismissed_at: 2 },
        ],
    }
}

fn view() -> ProjectView {
    let mut view = ProjectView::new();
    view.state.groups =
        vec![group(1, "apple", Some(0x1)), group(2, "pear", Some(0x2)), group(3, "plum", None)];
    view
}

#[test]
fn the_cursor_moves_over_the_shown_groups() {
    let mut v = view();
    v.next_group();
    assert_eq!(v.state.selected_group, Some(1));
    v.next_group();
    assert_eq!(v.state.selected_group, Some(2));
    v.prev_group();
    assert_eq!(v.state.selected_group, Some(1));
    v.prev_group();
    assert_eq!(v.state.selected_group, Some(1));
    v.state.set_search_query("p".to_string());
    v.state.selected_group = Some(3);
    v.next_group();
    assert_eq!(v.state.selected_group, Some(3));
    v.state.set_search_query("nothing".to_string());
    v.next_group();
    assert_eq!(v.state.selected_group, Some(3));
}

#[test]
fn the_cursor_rests_while_the_detail_pane_has_the_focus() {
    let mut v = view();
    v.activate_group();
    assert_eq!(v.state.focused_pane, Pane::Detail);
    v.next_group();
    v.prev_group();
    assert_eq!(v.state.selected_group, None);
    v.state.selected_group = Some(1);
    assert_eq!(v.dismiss_current_group(), None);
    assert_eq!(v.state.groups.len(), 3);
}

#[test]
fn a_dismissed_group_is_gone() {
    let mut v = view();
    v.state.selected_group = Some(2);
    assert_eq!(v.dismiss_current_group(), Some((0x2, 2)));
    assert!(v.state.group_by_id(2).is_none());
    assert!(v.state.group_by_id(1).is_some());
    assert_eq!(v.state.selected_group, None);
    assert_eq!(v.dismiss_group_toolbar(3), None);
    assert_eq!(v.dismiss_group_toolbar(9), None);
    assert_eq!(v.dismiss_group_toolbar(1), Some((0x1, 1)));
    assert_eq!(v.state.groups.len(), 1);
}

#[test]
fn a_restored_group_is_selected_again() {
    let mut v = view();
    v.state.dismissed = vec![suppression(0x9, Some(2)), suppression(0x8, None)];
    assert_eq!(v.restore_group_click(0x7), None);
    assert_eq!(v.restore_group_click(0x9), Some(0x9));
    assert_eq!(v.state.selected_group, Some(2));
    assert_eq!(v.state.dismissed.len(), 1);
    let reload = |groups| FolderLoadResult {
        folder: "/r".to_string(),
        groups,
        dismissed: Vec::new(),
        status: AppStatus::Loaded,
    };
    v.reload_after_restore(reload(vec![group(5, "x", None), group(2, "pear", Some(0x2))]));
    assert_eq!(v.state.selected_group, Some(2));
    assert_eq!(v.state.focused_pane, Pane::Detail);
    v.state.focused_pane = Pane::Sidebar;
    v.reload_after_restore(reload(vec![group(5, "x", None)]));
    assert_eq!(v.state.selected_group, Some(5));
    assert_eq!(v.state.focused_pane, Pane::Sidebar);
}

#[test]
fn a_dismissed_occurrence_is_hidden() {
    let mut s: AppState = view().state;
    assert_eq!(s.dismiss_occurrence(1, 2), None);
    assert_eq!(s.dismiss_occurrence(3, 0), None);
    assert_eq!(s.dismiss_occurrence(1, 0), Some((0x1, "a.rs".to_string())));
    s.selected_group = Some(1);
    let shown = s.selected_occurrences();
    assert_eq!(shown.len(), 1);
    assert_eq!(shown[0].path, "b.rs");
    s.selected_group = Some(2);
    assert_eq!(s.selected_occurrences().len(), 2);
}

#[test]
fn a_dismissed_occurrence_can_be_restored() {
    let mut s = AppState::new();
    s.dismissed = vec![suppression(0x9, Some(2))];
    s.session_occurrence_dismissed = vec![(0x9, "b.rs".to_string()), (0x8, "b.rs".to_string())];
    assert_eq!(s.restore_occurrence(0x9, "c.rs"), None);
    assert_eq!(s.restore_occurrence(0x7, "b.rs"), None);
    assert_eq!(s.restore_occurrence(0x9, "b.rs"), Some((0x9, "b.rs".to_string())));
    assert_eq!(s.dismissed[0].occurrence_dismissals.len(), 1);
    assert_eq!(s.dismissed[0].occurrence_dismissals[0].path, "a.rs");
    assert_eq!(s.session_occurrence_dismissed, vec![(0x8, "b.rs".to_string())]);
}

#[test]
fn paths_are_those_that_are_checked_or_all() {
    let mut v = view();
    assert_eq!(v.copy_paths_for_group(1).as_deref(), Some("a.rs\nb.rs"));
    v.state.toggle_occurrence(1, 1);
    assert_eq!(v.copy_paths_for_group(1).as_deref(), Some("b.rs"));
    assert_eq!(v.open_group_in_editor(1), vec![("b.rs".to_string(), 7)]);
    assert_eq!(v.copy_paths_for_group(9), None);
    assert!(v.open_group_in_editor(9).is_empty());
}

#[test]
fn the_sidebar_is_put_together() {
    let mut v = view();
    v.state.current_folder = Some("/home/me/repo".to_string());
    v.state.selected_group = Some(1);
    v.state.dismissed = vec![suppression(0x9, Some(1))];
    let bar = sidebar(&v.state, false);
    assert_eq!(bar.title, "repo");
    assert_eq!(bar.search.text, "Search\u{2026}");
    assert_eq!(
        bar.summary,
        "3 groups \u{00B7} 1 functions \u{00B7} 2 blocks \u{00B7} 2 files \u{00B7} 30 duplicated lines"
    );
    assert_eq!(bar.tier_b_header, "Duplicated functions / classes (1)");
    assert_eq!(bar.tier_b[0].label, "pear");
    assert!(!bar.tier_b[0].selected);
    assert_eq!(bar.tier_a_header, "Duplicated blocks (2)");
    assert!(bar.tier_a[0].selected);
    assert_eq!(bar.dismissed_header, "\u{25B6} Dismissed (1)");
    assert!(bar.dismissed.is_empty());
    v.state.dismissed_expanded = true;
    let rows = dismissed_rows(&v.state);
    assert_eq!(rows.len(), 1);
    assert!(rows[0].background.is_some());
}

#[test]
fn groups_are_counted_for_their_toolbar() {
    let mut s = view().state;
    assert_eq!(s.group_toolbar_counts(1), (2, 10));
    s.groups[0].occurrences.push(occ("a.rs", 90));
    s.groups[0].occurrences.push(OccurrenceView {
        path: "c.rs".to_string(),
        start_line: 9,
        end_line: 3,
        alpha_rename_spans: Vec::new(),
    });
    assert_eq!(s.group_toolbar_counts(1), (3, 15));
    assert_eq!(s.group_toolbar_counts(44), (0, 0));
    s.groups[1].occurrences.push(occ("./a.rs", 90));
    s.groups[1].occurrences.push(occ(".//a.rs", 90));
    s.groups[1].occurrences.push(occ("d//a.rs", 90));
    s.groups[1].occurrences.push(occ("d/./a.rs", 90));
    assert_eq!(s.group_toolbar_counts(2).0, 4);
}

#[test]
fn the_buttons_of_a_group_fold_its_occurrences() {
    let mut v = view();
    v.collapse_all();
    assert!(v.state.collapsed_occurrences.is_empty());
    v.state.selected_group = Some(1);
    v.state.collapsed_occurrences = vec![(2, 0)];
    v.collapse_all();
    assert!(v.state.is_occurrence_collapsed(1, 0));
    assert!(v.state.is_occurrence_collapsed(1, 1));
    assert!(!v.state.is_occurrence_collapsed(1, 2));
    v.expand_all();
    assert_eq!(v.state.collapsed_occurrences, vec![(2, 0)]);
}

#[test]
fn a_restored_occurrence_leaves_the_list() {
    let mut v = view();
    v.state.dismissed = vec![suppression(0x9, Some(2))];
    v.state.session_occurrence_dismissed =
        vec![(0x9, "a.rs".to_string()), (0x9, "b.rs".to_string())];
    assert_eq!(v.restore_occurrence_click(0x8, "a.rs"), None);
    assert_eq!(v.restore_occurrence_click(0x9, "c.rs"), None);
    assert_eq!(v.restore_occurrence_click(0x9, "a.rs"), Some((0x9, "a.rs".to_string())));
    assert_eq!(v.state.dismissed[0].occurrence_dismissals.len(), 1);
    assert_eq!(v.state.dismissed[0].occurrence_dismissals[0].path, "b.rs");
    assert_eq!(v.state.session_occurrence_dismissed, vec![(0x9, "b.rs".to_string())]);
}

#[test]
fn the_search_and_a_second_scan_start_from_the_menu() {
    let mut v = view();
    v.focus_detail();
    v.find_in_sidebar();
    assert_eq!(v.state.focused_pane, Pane::Sidebar);
    assert_eq!(v.rescan_current_folder(5), None);
    v.state.current_folder = Some("/r".to_string());
    assert_eq!(v.rescan_current_folder(5), Some("/r".to_string()));
    assert_eq!(v.rescan_current_folder(6), None);
}

#[test]
fn a_restored_group_hides_no_occurrence() {
    let mut v = view();
    v.state.dismissed = vec![suppression(0x1, Some(1))];
    v.state.session_occurrence_dismissed =
        vec![(0x1, "a.rs".to_string()), (0x2, "b.rs".to_string())];
    assert_eq!(v.state.visible_occurrences_of(&v.state.groups[0]).len(), 1);
    assert_eq!(v.restore_group_click(0x1), Some(0x1));
    assert_eq!(v.state.visible_occurrences_of(&v.state.groups[0]).len(), 2);
    assert_eq!(v.state.session_occurrence_dismissed, vec![(0x2, "b.rs".to_string())]);
}

#[test]
fn groups_are_summed_up_as_they_are_searched() {
    let mut s = view().state;
    s.set_search_query("pear".to_string());
    let counts = s.summary();
    assert_eq!((counts.groups, counts.functions, counts.blocks), (1, 1, 0));
    assert_eq!((counts.files, counts.lines), (2, 10));
    s.session_occurrence_dismissed = vec![(0x2, "a.rs".to_string())];
    assert_eq!((s.summary().files, s.summary().lines), (1, 5));
}
