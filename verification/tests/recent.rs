use dedup::recent::{
    clamp_unix_secs, config_dir, menu_label_for, recent_file_path, tmp_path_for, RecentProject,
    RecentProjects, MAX_RECENTS,
};

#[test]
fn push_adds_to_front() {
    let mut list = RecentProjects::empty();
    list.push("/a", 0);
    list.push("/b", 0);
    let paths: Vec<_> = list.entries.iter().map(|e| e.path.clone()).collect();
    assert_eq!(paths, vec!["/b", "/a"]);
}

#[test]
fn push_dedups_existing_entry() {
    let mut list = RecentProjects::empty();
    list.push("/a", 0);
    list.push("/b", 0);
    list.push("/a", 0);
    let paths: Vec<_> = list.entries.iter().map(|e| e.path.clone()).collect();
    assert_eq!(paths, vec!["/a", "/b"]);
}

#[test]
fn push_caps_at_max_recents_evicting_oldest() {
    let mut list = RecentProjects::empty();
    for i in 0..7 {
        list.push(&format!("/p{i}"), i);
    }
    assert_eq!(list.entries.len(), MAX_RECENTS);
    let paths: Vec<_> = list
        .entries
        .iter()
        .map(|e| e.path.clone())
        .collect();
    assert_eq!(paths, vec!["/p6", "/p5", "/p4", "/p3", "/p2"]);
}

#[test]
fn remove_drops_single_entry() {
    let mut list = RecentProjects::empty();
    list.push("/a", 0);
    list.push("/b", 0);
    list.push("/c", 0);
    list.remove("/b");
    let paths: Vec<_> = list.entries.iter().map(|e| e.path.clone()).collect();
    assert_eq!(paths, vec!["/c", "/a"]);
}

#[test]
fn remove_missing_path_is_noop() {
    let mut list = RecentProjects::empty();
    list.push("/a", 0);
    list.remove("/does-not-exist");
    assert_eq!(list.entries.len(), 1);
}

#[test]
fn clear_wipes_all() {
    let mut list = RecentProjects::empty();
    list.push("/a", 0);
    list.push("/b", 0);
    list.clear();
    assert!(list.entries.is_empty());
}

#[test]
fn is_stale_true_for_missing_path() {
    let entry = RecentProject {
        path: "/definitely-not-a-real-directory-xyz-42".to_string(),
        opened_at: 0,
    };
    assert!(entry.is_stale(false));
}

#[test]
fn menu_label_collapses_home_to_tilde() {
    let home = "/Users/alice";
    let path = "/Users/alice/code/dedup";
    assert_eq!(menu_label_for(path, Some(home)), "~/code/dedup");
}

#[test]
fn menu_label_leaves_short_foreign_paths_alone() {
    let path = "/opt/repo";
    assert_eq!(
        menu_label_for(path, Some("/Users/alice")),
        "/opt/repo"
    );
}

#[test]
fn menu_label_ellipsises_deep_foreign_paths() {
    let path = "/opt/vendor/deep/nested/thing";
    let label = menu_label_for(path, Some("/Users/alice"));
    assert_eq!(label, "\u{2026}/nested/thing");
}

#[test]
fn menu_label_for_home_itself_is_tilde() {
    let home = "/Users/alice";
    assert_eq!(menu_label_for(home, Some(home)), "~");
}

#[test]
fn recent_tmp_path_appends_dot_tmp_suffix() {
    let p = "/tmp/recent.json";
    assert_eq!(tmp_path_for(p), "/tmp/recent.json.tmp");
}

#[test]
fn is_stale_false_for_existing_directory() {
    let entry = RecentProject { path: "/tmp".to_string(), opened_at: 0 };
    assert!(!entry.is_stale(true));
}

#[test]
fn load_clamps_overlong_files_to_max_recents() {
    let entries: Vec<RecentProject> = (0..10)
        .map(|i| RecentProject { path: format!("/p{i}"), opened_at: i as i64 })
        .collect();
    let mut loaded = RecentProjects { entries };
    loaded.clamp();
    assert_eq!(loaded.entries.len(), MAX_RECENTS);
    assert_eq!(loaded.entries[4].path, "/p4");
}

#[test]
fn pushes_record_when_a_project_was_opened() {
    let mut list = RecentProjects::empty();
    list.push("/a", 10);
    list.push("/a", 20);
    assert_eq!(list.entries.len(), 1);
    assert_eq!(list.entries[0].opened_at, 20);
}

#[test]
fn one_directory_spelt_in_two_ways_is_one_entry() {
    let mut list = RecentProjects::empty();
    list.push("/a/b", 1);
    list.push("/a//b/", 2);
    assert_eq!(list.entries.len(), 1);
}

#[test]
fn config_lives_in_xdg_or_home() {
    assert_eq!(config_dir(Some("/xdg"), Some("/home/a")).as_deref(), Some("/xdg/dedup"));
    assert_eq!(config_dir(None, Some("/home/a")).as_deref(), Some("/home/a/.config/dedup"));
    assert_eq!(config_dir(None, None), None);
    assert_eq!(
        recent_file_path(None, Some("/home/a")).as_deref(),
        Some("/home/a/.config/dedup/recent.json")
    );
}

#[test]
fn clocks_are_fitted_to_the_stored_type() {
    assert_eq!(clamp_unix_secs(Some(12)), 12);
    assert_eq!(clamp_unix_secs(Some(u64::MAX)), i64::MAX);
    assert_eq!(clamp_unix_secs(None), i64::MAX);
}
