use dedup::app_state::SortKey;
use dedup::recent::tmp_path_for;
use dedup::sidebar_prefs::{sidebar_file_path, SidebarPrefs};

#[test]
fn default_sidebar_hidden_is_false() {
    assert!(!SidebarPrefs::default().sidebar_hidden);
}

#[test]
fn default_sort_key_is_severity_for_new_install() {
    assert_eq!(SidebarPrefs::default().sort_key, Some(SortKey::Severity));
}

#[test]
fn legacy_file_without_sort_key_upgrades_to_impact() {
    let mut prefs = SidebarPrefs {
        sidebar_hidden: false,
        sort_key: None,
        sparkline_collapsed: Vec::new(),
    };
    prefs.upgrade();
    assert_eq!(
        prefs.sort_key,
        Some(SortKey::Impact),
        "legacy users keep their persisted Impact sort"
    );
}

#[test]
fn missing_file_returns_severity_for_new_install() {
    let prefs = SidebarPrefs::default();
    assert_eq!(prefs.sort_key, Some(SortKey::Severity));
}

#[test]
fn upgrading_keeps_a_stored_sort_key() {
    let mut prefs = SidebarPrefs {
        sidebar_hidden: true,
        sort_key: Some(SortKey::Alphabetical),
        sparkline_collapsed: Vec::new(),
    };
    prefs.upgrade();
    assert_eq!(prefs.sort_key, Some(SortKey::Alphabetical));
    assert!(prefs.sidebar_hidden);
}

#[test]
fn sparkline_collapsed_defaults_to_true_for_unseen_folder() {
    let prefs = SidebarPrefs::default();
    assert!(prefs.is_sparkline_collapsed("/repo/one"));
}

#[test]
fn sparkline_collapsed_is_per_folder_independent() {
    let mut prefs = SidebarPrefs::default();
    prefs.set_sparkline_collapsed("/repo/one", false);
    assert!(!prefs.is_sparkline_collapsed("/repo/one"));
    assert!(prefs.is_sparkline_collapsed("/repo/two"));
}

#[test]
fn a_sparkline_can_be_collapsed_again() {
    let mut prefs = SidebarPrefs::default();
    prefs.set_sparkline_collapsed("/repo/one", false);
    prefs.set_sparkline_collapsed("/repo/two", false);
    prefs.set_sparkline_collapsed("/repo/one", true);
    assert!(prefs.is_sparkline_collapsed("/repo/one"));
    assert!(!prefs.is_sparkline_collapsed("/repo/two"));
}

#[test]
fn legacy_file_without_sparkline_map_defaults_to_collapsed() {
    let mut prefs = SidebarPrefs {
        sidebar_hidden: false,
        sort_key: None,
        sparkline_collapsed: Vec::new(),
    };
    prefs.upgrade();
    assert!(prefs.is_sparkline_collapsed("/any"));
}

#[test]
fn sidebar_prefs_tmp_path_appends_dot_tmp_suffix() {
    let p = "/tmp/sidebar.json";
    assert_eq!(tmp_path_for(p), "/tmp/sidebar.json.tmp");
}

#[test]
fn preferences_live_beside_the_configuration() {
    assert_eq!(
        sidebar_file_path(Some("/xdg"), None).as_deref(),
        Some("/xdg/dedup/sidebar.json")
    );
    assert_eq!(sidebar_file_path(None, None), None);
}

#[test]
fn the_order_of_setting_makes_no_difference() {
    let mut a = SidebarPrefs::default();
    a.set_sparkline_collapsed("/b", true);
    a.set_sparkline_collapsed("/a", false);
    a.set_sparkline_collapsed("/c", true);
    let mut b = SidebarPrefs::default();
    b.set_sparkline_collapsed("/c", false);
    b.set_sparkline_collapsed("/a", false);
    b.set_sparkline_collapsed("/b", true);
    assert_ne!(a, b);
    b.set_sparkline_collapsed("/c", true);
    assert_eq!(a, b);
    assert_eq!(a.sparkline_collapsed[0].0, "/a");
}
