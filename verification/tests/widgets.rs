use dedup::app_state::{
    AppState, AppStatus, GroupView, OccurrenceView, ScanState, SuppressionView, Tier,
};
use dedup::menubar::MenuAction;
use dedup::project_view::widgets::{
    detail_pane, dismissed_header, dismissed_toolbar, folder_title, group_toolbar, issues_dialog,
    occurrence_header, preferences_dialog, root_command, scan_button, scan_overlay, search_box,
    search_key, section_header, sort_row, startup_modal_file, toast_card, window_body,
    window_overlays, Body, DetailPane, EditorConfig, Keystroke, RootCommand, SearchKey,
    ToolbarCommand, ACCENT, ACCENT_DIM, CHECKBOX_UNCHECKED_BG, ROW_TEXT, ROW_TEXT_DIM,
    TOAST_ERROR_BG, TOAST_INFO_BORDER,
};
use dedup::toast::{FileIssue, FileIssueKind, ToastKind, ToastStack};

#[test]
fn menu_actions_stand_for_commands() {
    assert_eq!(root_command(MenuAction::OpenFolder), RootCommand::PickFolder);
    assert_eq!(root_command(MenuAction::OpenRecent3), RootCommand::OpenRecent(3));
    assert_eq!(root_command(MenuAction::StopScan), RootCommand::RequestCancel);
    assert_eq!(root_command(MenuAction::About), RootCommand::LogOnly);
}

#[test]
fn the_toolbar_counts_and_dims() {
    let bar = group_toolbar(1, 12, true);
    assert_eq!(bar.info, "1 file \u{00B7} 12 duplicated lines");
    assert_eq!(bar.buttons.len(), 7);
    assert!(bar.buttons.iter().all(|b| b.enabled));
    let bar = group_toolbar(3, 1, false);
    assert_eq!(bar.info, "3 files \u{00B7} 1 duplicated line");
    let prompt = &bar.buttons[3];
    assert_eq!(prompt.command, ToolbarCommand::CopyPrompt);
    assert!(!prompt.enabled);
    assert_eq!(prompt.fg, ROW_TEXT_DIM);
}

fn dismissed_state() -> AppState {
    let mut state = AppState::new();
    state.dismissed = vec![SuppressionView {
        hash: 0xabcdef0123456789,
        hash_hex: "abcdef0123456789".to_string(),
        last_group_id: Some(8),
        dismissed_at: 0,
        occurrences: vec![OccurrenceView {
            path: "a.rs".to_string(),
            start_line: 1,
            end_line: 2,
            alpha_rename_spans: Vec::new(),
        }],
        occurrence_dismissals: Vec::new(),
    }];
    state
}

#[test]
fn a_dismissed_group_can_be_restored_from_its_toolbar() {
    let mut state = dismissed_state();
    assert_eq!(dismissed_toolbar(&state).label, "Dismissed group");
    state.selected_group = Some(8);
    let bar = dismissed_toolbar(&state);
    assert_eq!(bar.label, "Dismissed group (hash abcdef012345\u{2026})");
    assert_eq!(bar.hash, 0xabcdef0123456789);
    assert_eq!(dismissed_header(&state), "\u{25B6} Dismissed (1)");
    state.dismissed_expanded = true;
    assert_eq!(dismissed_header(&state), "\u{25BC} Dismissed (1)");
}

#[test]
fn heads_of_occurrences_are_told_apart() {
    let a = occurrence_header(3, 1, true, Some("who"), Some("why"));
    assert_eq!(a.key, (3 << 32) | 1);
    assert_eq!(a.hover_key, "occ-hdr-3-1");
    assert_eq!(a.checkbox_bg, ACCENT);
    assert_eq!(a.check_mark, "\u{2713}");
    assert_eq!(a.blame.as_deref(), Some("who"));
    assert_eq!(a.blame_tooltip.as_deref(), Some("why"));
    let b = occurrence_header(3, 2, false, Some("who"), Some(""));
    assert_ne!(a.key, b.key);
    assert_eq!(b.checkbox_bg, CHECKBOX_UNCHECKED_BG);
    assert_eq!(b.check_mark, " ");
    assert_eq!(b.blame_tooltip, None);
    assert_eq!(occurrence_header(1, 0, false, None, Some("why")).blame_tooltip, None);
}

#[test]
fn preferences_name_what_is_unset() {
    let cfg = EditorConfig {
        preset: "vim".to_string(),
        default_terminal: "kitty".to_string(),
        terminal: None,
        command: Some("vim {file}".to_string()),
        terminal_command: None,
    };
    let rows = preferences_dialog(&cfg, "/c.toml");
    let values: Vec<&str> = rows.iter().map(|r| r.value.as_str()).collect();
    assert_eq!(values, vec!["vim", "kitty", "vim {file}", "(unset)", "/c.toml"]);
    assert_eq!(rows[2].label, "Command");
}

#[test]
fn issues_are_listed_with_their_kinds() {
    let issues = vec![FileIssue {
        path: "a.rs".to_string(),
        kind: FileIssueKind::TierBPanic,
        message: "boom".to_string(),
    }];
    let dialog = issues_dialog(&issues);
    assert_eq!(dialog.rows.len(), 1);
    assert_eq!(dialog.rows[0].label, "TierBPanic");
    assert_eq!(dialog.rows[0].value, "a.rs: boom");
    assert_eq!(startup_modal_file("/c.toml"), "File: /c.toml");
}

#[test]
fn toasts_are_painted_by_kind() {
    let mut stack = ToastStack::new();
    stack.push(ToastKind::Error, "e".to_string(), 0);
    stack.push(ToastKind::Info, "i".to_string(), 0);
    let card = toast_card(&stack.toasts[0]);
    assert_eq!(card.bg, TOAST_ERROR_BG);
    assert_eq!(card.icon, "\u{26A0}");
    let card = toast_card(&stack.toasts[1]);
    assert_eq!(card.border, TOAST_INFO_BORDER);
    assert_eq!(card.icon, "\u{2139}");
    assert_eq!(card.action_id, format!("toast-action-{}", stack.toasts[1].id));
    assert_eq!(card.close_id, format!("toast-close-{}", stack.toasts[1].id));
}

#[test]
fn the_search_field_shows_its_query() {
    let mut state = AppState::new();
    let field = search_box(&state, false);
    assert_eq!(field.text, "Search\u{2026}");
    assert_eq!(field.text_color, ROW_TEXT_DIM);
    assert_eq!(field.border_color, ACCENT_DIM);
    state.set_search_query("fn".to_string());
    let field = search_box(&state, true);
    assert_eq!(field.text, "fn");
    assert_eq!(field.text_color, ROW_TEXT);
    assert_eq!(field.border_color, ACCENT);
}

#[test]
fn keys_edit_the_search_field() {
    let key = |name: &str, text: Option<&str>, command_mod: bool| {
        search_key(&Keystroke {
            key: name.to_string(),
            key_char: text.map(|t| t.to_string()),
            command_mod,
        })
    };
    assert_eq!(key("escape", None, true), SearchKey::Leave);
    assert_eq!(key("a", Some("A"), false), SearchKey::Type('A'));
    assert_eq!(key("a", None, false), SearchKey::Type('a'));
    assert_eq!(key("a", Some("a"), true), SearchKey::Ignore);
    assert_eq!(key("backspace", None, false), SearchKey::Backspace);
    assert_eq!(key("delete", None, false), SearchKey::Backspace);
    assert_eq!(key("enter", Some("\n"), false), SearchKey::Ignore);
    assert_eq!(key("f12", None, false), SearchKey::Ignore);
}

#[test]
fn captions_carry_counts() {
    assert_eq!(section_header("Tier A", 3), "Tier A (3)");
    let mut state = AppState::new();
    assert_eq!(folder_title(&state), "");
    state.current_folder = Some("/home/me/repo".to_string());
    assert_eq!(folder_title(&state), "repo");
    state.current_folder = Some("/".to_string());
    assert_eq!(folder_title(&state), "/");
    let row = sort_row("Impact", true);
    assert_eq!(row.text, "\u{2022} Impact");
    assert_eq!(row.id, "sort-popup-Impact");
    assert_eq!(row.color, ACCENT);
    assert_eq!(sort_row("Impact", false).text, "  Impact");
}

#[test]
fn the_scan_button_follows_the_scan() {
    let mut state = AppState::new();
    assert!(scan_button(&state).action.is_none());
    assert_eq!(scan_button(&state).bg, ACCENT_DIM);
    state.current_folder = Some("/r".to_string());
    assert_eq!(scan_button(&state).action, Some(MenuAction::StartScan));
    state.scan_state = ScanState::Running { started_at: 0 };
    assert_eq!(scan_button(&state).label, "Cancel");
    assert_eq!(scan_button(&state).action, Some(MenuAction::StopScan));
    state.scan_state = ScanState::Cancelling { started_at: 0 };
    assert_eq!(scan_button(&state).label, "Cancelling\u{2026}");
}

#[test]
fn the_strip_tells_how_far_the_scan_is() {
    assert_eq!(scan_overlay(ScanState::Idle, 1, 2, 3_000), None);
    assert_eq!(
        scan_overlay(ScanState::Running { started_at: 1_000 }, 1, 2, 2_290).as_deref(),
        Some("Scanning\u{2026} 1 files \u{00B7} 2 matches \u{00B7} 1.2s")
    );
    assert_eq!(
        scan_overlay(ScanState::Cancelling { started_at: 5_000 }, 1, 2, 3_000).as_deref(),
        Some("Cancelling\u{2026} (0.0s)")
    );
    let over = ScanState::Completed { group_count: 4, file_count: 9, duration: 61_999 };
    assert_eq!(
        scan_overlay(over, 1, 2, 3_000).as_deref(),
        Some("Scan complete \u{2014} 4 groups across 9 files in 61s.")
    );
}

#[test]
fn the_window_is_filled_by_status() {
    let mut state = AppState::new();
    assert!(matches!(window_body(&state), Body::NoFolder));
    state.current_folder = Some("/r".to_string());
    state.status = AppStatus::NoDuplicates;
    match window_body(&state) {
        Body::Panel { headline, detail, footer } => {
            assert_eq!(headline, "No duplicates found");
            assert_eq!(detail, None);
            assert_eq!(footer.as_deref(), Some("Folder: /r"));
        }
        other => panic!("unexpected {other:?}"),
    }
    state.status = AppStatus::NewerCache { found: 7, supported: 5 };
    match window_body(&state) {
        Body::Panel { detail, .. } => assert_eq!(
            detail.as_deref(),
            Some("Cache schema v7 > supported v5. Rescan with this build to continue.")
        ),
        other => panic!("unexpected {other:?}"),
    }
    state.status = AppStatus::Loaded;
    state.sidebar_hidden = true;
    assert!(matches!(window_body(&state), Body::Loaded { sidebar: false }));
}

#[test]
fn overlays_follow_the_state() {
    let mut state = AppState::new();
    let none = window_overlays(&state);
    assert!(!none.scan_strip && !none.preferences && !none.issues);
    state.preferences_open = true;
    state.scan_state = ScanState::Running { started_at: 0 };
    let some = window_overlays(&state);
    assert!(some.scan_strip && some.preferences && !some.sort_popup);
}

#[test]
fn the_detail_pane_shows_what_is_selected() {
    let mut state = dismissed_state();
    assert_eq!(detail_pane(&state), DetailPane::Hint);
    state.selected_group = Some(8);
    assert_eq!(detail_pane(&state), DetailPane::Dismissed(8));
    state.groups = vec![GroupView {
        id: 2,
        tier: Tier::A,
        label: "g".to_string(),
        occurrences: vec![OccurrenceView {
            path: "b.rs".to_string(),
            start_line: 1,
            end_line: 2,
            alpha_rename_spans: Vec::new(),
        }],
        language: None,
        group_hash: None,
    }];
    state.selected_group = Some(2);
    assert_eq!(detail_pane(&state), DetailPane::Group(2));
}
