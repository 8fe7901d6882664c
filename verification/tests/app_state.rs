use dedup::app_state::{
    format_completion_banner, format_elapsed, group_label, load_folder, AppState, AppStatus,
    CacheOpen, CacheRead, FolderLoadResult, GroupDetail, GroupRead, GroupView,
    OccurrenceDismissal, OccurrenceView, ScanState, SortKey, SuppressionRow, SuppressionView, Tier,
};

fn occ(path: &str, s: i64, e: i64) -> OccurrenceView {
    OccurrenceView {
        path: path.to_string(),
        start_line: s,
        end_line: e,
        alpha_rename_spans: Vec::new(),
    }
}

fn group(id: i64, tier: Tier, label: &str, occurrences: Vec<OccurrenceView>) -> GroupView {
    GroupView {
        id,
        tier,
        label: label.to_string(),
        occurrences,
        language: None,
        group_hash: None,
    }
}

#[test]
fn occurrence_label_uses_en_dash() {
    let o = occ("src/auth/login.rs", 42, 58);
    assert_eq!(o.label(), "src/auth/login.rs:L42\u{2013}58");
}

#[test]
fn tier_a_label_is_first_occurrence_path_lines() {
    let first = occ("src/auth/login.rs", 42, 58);
    let label = group_label(Tier::A, None, None, Some(&first));
    assert_eq!(label, "src/auth/login.rs:L42\u{2013}58");
}

#[test]
fn tier_b_label_without_name_falls_back_to_path_lines() {
    let first = occ("src/auth.rs", 10, 30);
    let label = group_label(Tier::B, None, None, Some(&first));
    assert_eq!(label, "src/auth.rs:L10\u{2013}30");
}

#[test]
fn tier_b_label_with_name_and_kind() {
    let first = occ("src/auth.rs", 10, 30);
    let label = group_label(Tier::B, Some("validate_email"), Some("fn"), Some(&first));
    assert_eq!(label, "fn validate_email");
}

#[test]
fn tier_b_label_with_name_without_kind() {
    let first = occ("src/a.rs", 1, 2);
    let label = group_label(Tier::B, Some("User"), None, Some(&first));
    assert_eq!(label, "User");
}

#[test]
fn group_label_handles_empty_group_defensively() {
    let label = group_label(Tier::A, None, None, None);
    assert_eq!(label, "(empty group)");
}

#[test]
fn suppression_label_truncates_hash() {
    let s = SuppressionView {
        hash: 0xabcdef0123456789,
        hash_hex: "abcdef0123456789".to_string(),
        last_group_id: Some(3),
        dismissed_at: 0,
        occurrences: Vec::new(),
        occurrence_dismissals: Vec::new(),
    };
    assert_eq!(s.label(), "Dismissed block (hash abcdef012345\u{2026})");
}

#[test]
fn default_state_is_no_folder_open() {
    let s = AppState::new();
    assert_eq!(s.status, AppStatus::NoFolderOpen);
    assert!(s.current_folder.is_none());
    assert!(s.groups.is_empty());
    assert!(s.dismissed.is_empty());
    assert!(s.selected_group.is_none());
    assert!(!s.dismissed_expanded);
}

#[test]
fn set_folder_result_selects_first_group() {
    let mut s = AppState::new();
    let result = FolderLoadResult {
        folder: "/tmp/x".to_string(),
        groups: vec![
            group(7, Tier::A, "a", vec![occ("a.rs", 1, 2)]),
            group(8, Tier::B, "b", vec![occ("b.rs", 3, 4)]),
        ],
        dismissed: vec![],
        status: AppStatus::Loaded,
    };
    s.set_folder_result(result);
    assert_eq!(s.selected_group, Some(7));
    assert_eq!(s.status, AppStatus::Loaded);
    assert_eq!(s.current_folder.as_deref(), Some("/tmp/x"));
    assert!(!s.dismissed_expanded);
}

#[test]
fn set_folder_result_with_zero_groups_has_no_selection() {
    let mut s = AppState::new();
    s.selected_group = Some(42);
    s.set_folder_result(FolderLoadResult {
        folder: "/tmp/y".to_string(),
        groups: vec![],
        dismissed: vec![],
        status: AppStatus::NoDuplicates,
    });
    assert_eq!(s.selected_group, None);
    assert_eq!(s.status, AppStatus::NoDuplicates);
}

#[test]
fn tier_partition_groups() {
    let mut s = AppState::new();
    s.groups = vec![
        group(1, Tier::A, "a", vec![]),
        group(2, Tier::B, "b", vec![]),
        group(3, Tier::A, "a2", vec![]),
    ];
    let tier_a: Vec<i64> = s.tier_a_groups().iter().map(|g| g.id).collect();
    let tier_b: Vec<i64> = s.tier_b_groups().iter().map(|g| g.id).collect();
    assert_eq!(tier_a, vec![1, 3]);
    assert_eq!(tier_b, vec![2]);
}

#[test]
fn selected_occurrences_returns_selected_group_rows() {
    let mut s = AppState::new();
    s.groups = vec![group(9, Tier::A, "a", vec![occ("x.rs", 1, 2), occ("x.rs", 10, 12)])];
    s.selected_group = Some(9);
    assert_eq!(s.selected_occurrences().len(), 2);
    s.selected_group = Some(77);
    assert!(s.selected_occurrences().is_empty());
    s.selected_group = None;
    assert!(s.selected_occurrences().is_empty());
}

#[test]
fn load_folder_with_no_cache_file_is_empty() {
    let r = load_folder("/tmp/nothing", CacheOpen::Missing);
    assert_eq!(r.status, AppStatus::Empty);
    assert!(r.groups.is_empty());
    assert!(r.dismissed.is_empty());
    assert_eq!(r.folder, "/tmp/nothing");
}

#[test]
fn load_folder_with_empty_cache_reports_no_duplicates() {
    let read = CacheRead {
        groups: Ok(Vec::new()),
        suppressed: Ok(Vec::new()),
        suppressions: Ok(Vec::new()),
    };
    let r = load_folder("/tmp/fresh", CacheOpen::Opened(read));
    assert_eq!(r.status, AppStatus::NoDuplicates);
    assert!(r.groups.is_empty());
}

#[test]
fn load_folder_reports_a_newer_cache() {
    let r = load_folder("/repo", CacheOpen::Newer { found: 9, supported: 4 });
    assert_eq!(r.status, AppStatus::NewerCache { found: 9, supported: 4 });
    assert!(r.groups.is_empty());
    assert!(r.dismissed.is_empty());
}

#[test]
fn load_folder_reports_a_cache_that_cannot_be_opened() {
    let r = load_folder("/repo", CacheOpen::Failed("disk on fire".to_string()));
    assert_eq!(r.status, AppStatus::Error("disk on fire".to_string()));
}

fn read_of(groups: Vec<GroupRead>, suppressed: Vec<u64>) -> CacheRead {
    CacheRead {
        groups: Ok(groups),
        suppressed: Ok(suppressed),
        suppressions: Ok(Vec::new()),
    }
}

fn stored(id: i64, hash: Option<u64>, occurrences: Vec<OccurrenceView>) -> GroupRead {
    GroupRead {
        id,
        hash: Ok(hash),
        detail: Ok(Some(GroupDetail {
            id,
            tier: Tier::A,
            occurrences,
            language: Some("Rust".to_string()),
        })),
    }
}

#[test]
fn load_folder_hides_suppressed_groups() {
    let groups = vec![
        stored(1, Some(0xaa), vec![occ("a.rs", 1, 9)]),
        stored(2, Some(0xbb), vec![occ("b.rs", 4, 8)]),
        stored(3, None, vec![occ("c.rs", 2, 3)]),
    ];
    let r = load_folder("/repo", CacheOpen::Opened(read_of(groups, vec![0xaa])));
    assert_eq!(r.status, AppStatus::Loaded);
    let ids: Vec<i64> = r.groups.iter().map(|g| g.id).collect();
    assert_eq!(ids, vec![2, 3]);
    assert_eq!(r.groups[0].label, "b.rs:L4\u{2013}8");
    assert_eq!(r.groups[0].group_hash, Some(0xbb));
    assert_eq!(r.groups[0].language.as_deref(), Some("Rust"));
}

#[test]
fn load_folder_lists_suppressions() {
    let read = CacheRead {
        groups: Ok(Vec::new()),
        suppressed: Ok(vec![0xfeed]),
        suppressions: Ok(vec![SuppressionRow {
            hash: 0xfeed,
            last_group_id: Some(12),
            dismissed_at: 86_400,
            occurrences: vec![occ("a.rs", 1, 2)],
            occurrence_dismissals: vec![OccurrenceDismissal {
                path: "b.rs".to_string(),
                dismissed_at: 5,
            }],
        }]),
    };
    let r = load_folder("/repo", CacheOpen::Opened(read));
    assert_eq!(r.dismissed.len(), 1);
    assert_eq!(r.dismissed[0].hash_hex, "000000000000feed");
    assert_eq!(r.dismissed[0].last_group_id, Some(12));
    assert_eq!(r.dismissed[0].occurrence_dismissals[0].path, "b.rs");
}

#[test]
fn load_folder_reports_a_cache_that_cannot_be_read() {
    let read = CacheRead {
        groups: Err("no such table".to_string()),
        suppressed: Ok(Vec::new()),
        suppressions: Ok(Vec::new()),
    };
    let r = load_folder("/repo", CacheOpen::Opened(read));
    assert!(matches!(r.status, AppStatus::Error(_)));
    assert!(r.groups.is_empty());
}

#[test]
fn dismissed_groups_are_hidden_from_both_tiers() {
    let mut s = AppState::new();
    let mut hidden = group(1, Tier::A, "a", vec![occ("a.rs", 1, 2)]);
    hidden.group_hash = Some(0x10);
    s.groups = vec![hidden, group(2, Tier::A, "b", vec![occ("b.rs", 1, 2)])];
    s.selected_group = Some(1);
    s.session_occurrence_dismissed = vec![(0x10, "a.rs".to_string())];
    assert!(s.selected_occurrences().is_empty());
}

#[test]
fn toggling_an_occurrence_twice_restores_it() {
    let mut s = AppState::new();
    assert!(!s.is_occurrence_selected(4, 1));
    s.toggle_occurrence(4, 1);
    assert!(s.is_occurrence_selected(4, 1));
    assert!(!s.is_occurrence_selected(4, 0));
    s.toggle_occurrence(4, 1);
    assert!(!s.is_occurrence_selected(4, 1));
    assert!(s.selected_occurrence_indices.is_empty());
}

#[test]
fn collapse_all_and_expand_all_cover_the_active_group() {
    let mut s = AppState::new();
    s.groups = vec![
        group(1, Tier::A, "a", vec![occ("a.rs", 1, 2), occ("b.rs", 1, 2)]),
        group(2, Tier::A, "b", vec![occ("c.rs", 1, 2)]),
    ];
    s.selected_group = Some(1);
    s.toggle_occurrence_collapse(2, 0);
    s.collapse_all_in_active_group();
    assert!(s.is_occurrence_collapsed(1, 0));
    assert!(s.is_occurrence_collapsed(1, 1));
    assert!(!s.is_occurrence_collapsed(1, 2));
    s.expand_all_in_active_group();
    assert!(!s.is_occurrence_collapsed(1, 0));
    assert!(!s.is_occurrence_collapsed(1, 1));
    assert!(s.is_occurrence_collapsed(2, 0));
}

#[test]
fn groups_are_found_by_id() {
    let mut s = AppState::new();
    s.groups = vec![group(3, Tier::B, "c", vec![])];
    assert_eq!(s.group_by_id(3).map(|g| g.label.as_str()), Some("c"));
    assert!(s.group_by_id(4).is_none());
}

#[test]
fn dismissed_groups_are_found_by_their_last_id() {
    let mut s = AppState::new();
    s.dismissed = vec![SuppressionView {
        hash: 1,
        hash_hex: "0000000000000001".to_string(),
        last_group_id: Some(30),
        dismissed_at: 0,
        occurrences: Vec::new(),
        occurrence_dismissals: Vec::new(),
    }];
    s.selected_group = Some(30);
    assert_eq!(s.dismissed_by_id(30).map(|d| d.hash), Some(1));
    assert_eq!(s.selected_dismissed().map(|d| d.hash), Some(1));
    assert!(s.dismissed_by_id(31).is_none());
}

#[test]
fn search_is_by_containment_in_the_label() {
    let mut s = AppState::new();
    s.groups = vec![
        group(1, Tier::A, "apple", vec![]),
        group(2, Tier::A, "grape", vec![]),
        group(3, Tier::A, "melon", vec![]),
    ];
    s.set_search_query("ap".to_string());
    let ids: Vec<i64> = s.visible_groups().iter().map(|g| g.id).collect();
    assert_eq!(ids, vec![1, 2]);
}

#[test]
fn scan_states_tell_running_from_active() {
    assert!(ScanState::Running { started_at: 1 }.is_running());
    assert!(!ScanState::Cancelling { started_at: 1 }.is_running());
    assert!(ScanState::Cancelling { started_at: 1 }.is_active());
    assert!(!ScanState::Idle.is_active());
}

#[test]
fn groups_can_be_sorted_by_their_labels() {
    let mut s = AppState::new();
    for (id, label) in [(1, "plum"), (2, "apple"), (3, "Zebra"), (4, "apple"), (5, "app")] {
        s.groups.push(GroupView {
            id,
            tier: Tier::A,
            label: label.to_string(),
            occurrences: Vec::new(),
            language: None,
            group_hash: None,
        });
    }
    let ids = |s: &AppState| s.visible_groups().iter().map(|g| g.id).collect::<Vec<i64>>();
    assert_eq!(ids(&s), vec![1, 2, 3, 4, 5]);
    s.sort_key = SortKey::Impact;
    assert_eq!(ids(&s), vec![1, 2, 3, 4, 5]);
    s.sort_key = SortKey::Alphabetical;
    assert_eq!(ids(&s), vec![3, 5, 2, 4, 1]);
    s.set_search_query("p".to_string());
    assert_eq!(ids(&s), vec![5, 2, 4, 1]);
}

#[test]
fn times_and_results_are_written_out() {
    assert_eq!(format_elapsed(0), "0.0s");
    assert_eq!(format_elapsed(1_299), "1.2s");
    assert_eq!(format_elapsed(61_050), "61.0s");
    assert_eq!(
        format_completion_banner(2, 17, 4_999),
        "Scan complete \u{2014} 2 groups across 17 files in 4s."
    );
}

#[test]
fn paths_that_lead_the_same_way_are_equal() {
    let occ = |path: &str| OccurrenceView {
        path: path.to_string(),
        start_line: 1,
        end_line: 2,
        alpha_rename_spans: vec![(0, 1, 2)],
    };
    assert_eq!(occ("a//b.rs"), occ("a/b.rs"));
    assert_ne!(occ("a/b.rs"), occ("/a/b.rs"));
    let group = |path: &str, label: &str| GroupView {
        id: 1,
        tier: Tier::B,
        label: label.to_string(),
        occurrences: vec![occ(path)],
        language: Some("rust".to_string()),
        group_hash: Some(7),
    };
    assert_eq!(group("a/./b.rs", "x"), group("a/b.rs", "x"));
    assert_ne!(group("a/b.rs", "x"), group("a/b.rs", "y"));
    let load = |folder: &str, status: AppStatus| FolderLoadResult {
        folder: folder.to_string(),
        groups: vec![group("a.rs", "x")],
        dismissed: Vec::new(),
        status,
    };
    assert_eq!(load("/r/", AppStatus::Loaded), load("/r", AppStatus::Loaded));
    assert_ne!(load("/r", AppStatus::Loaded), load("/r", AppStatus::Empty));
    assert_ne!(
        load("/r", AppStatus::Error("a".to_string())),
        load("/r", AppStatus::Error("b".to_string()))
    );
}

#[test]
fn every_entry_of_a_set_is_listed_once() {
    let mut s = AppState::new();
    s.groups = vec![GroupView {
        id: 1,
        tier: Tier::A,
        label: "x".to_string(),
        occurrences: vec![occ("a.rs", 1, 2), occ("b.rs", 1, 2), occ(".//a.rs", 3, 4)],
        language: None,
        group_hash: Some(9),
    }];
    s.selected_group = Some(1);
    s.toggle_occurrence_collapse(1, 1);
    s.collapse_all_in_active_group();
    s.collapse_all_in_active_group();
    assert_eq!(s.collapsed_occurrences, vec![(1, 1), (1, 0), (1, 2)]);
    s.toggle_occurrence(1, 0);
    s.toggle_occurrence(1, 0);
    assert!(s.selected_occurrence_indices.is_empty());
    assert!(s.dismiss_occurrence(1, 0).is_some());
    assert!(s.dismiss_occurrence(1, 1).is_some());
    assert!(s.dismiss_occurrence(1, 1).is_none());
    assert_eq!(s.session_occurrence_dismissed.len(), 2);
}

#[test]
fn toggling_twice_leaves_the_key() {
    let mut s = AppState::new();
    s.collapsed_occurrences = vec![(1, 0), (1, 1), (2, 0)];
    let key = |s: &AppState| {
        dedup::detail_rows::compute_cache_key(
            Some(1),
            &Vec::new(),
            &s.collapsed_occurrences,
            &Vec::new(),
            &Vec::new(),
            3,
        )
    };
    let before = key(&s);
    s.toggle_occurrence_collapse(1, 0);
    assert_ne!(key(&s), before);
    s.toggle_occurrence_collapse(1, 0);
    assert_eq!(key(&s), before);
}
