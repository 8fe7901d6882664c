use dedup::menubar::{
    build_menus, build_open_recent_submenu, menu_item_for_index, shortcuts, MenuAction, MenuEntry,
    MenuItem, OPEN_RECENT_SLOTS,
};
use dedup::recent::RecentProject;

#[test]
fn menubar_top_level_order_matches_prd() {
    let menus = build_menus(&[], None);
    let names: Vec<&str> = menus.iter().map(|m| m.name.as_ref()).collect();
    assert_eq!(names, ["Dedup", "File", "Scan", "View", "Window", "Help"]);
}

#[test]
fn menubar_shortcuts_cover_acceptance_criteria() {
    let table = shortcuts();
    let present: std::collections::HashSet<&str> = table.iter().map(|s| s.keystroke).collect();
    for required in [
        "cmd-,", "cmd-o", "cmd-w", "cmd-r", "cmd-.", "cmd-b", "cmd-1", "cmd-2",
        "cmd-f", "j", "k", "up", "down", "enter", "x", "o",
    ] {
        assert!(present.contains(required), "missing required shortcut {required}");
    }
}

fn project(path: &str) -> RecentProject {
    RecentProject { path: path.to_string(), opened_at: 0 }
}

#[test]
fn recent_projects_are_listed_in_order() {
    let recents = [project("/Users/alice/one"), project("/opt/two")];
    match build_open_recent_submenu(&recents, Some("/Users/alice")) {
        MenuItem::Submenu { entries, .. } => {
            match &entries[0] {
                MenuEntry::Action { label, action, disabled } => {
                    assert_eq!(label, "~/one");
                    assert_eq!(*action, MenuAction::OpenRecent0);
                    assert!(!disabled);
                }
                other => panic!("unexpected {other:?}"),
            }
            match &entries[1] {
                MenuEntry::Action { label, action, .. } => {
                    assert_eq!(label, "/opt/two");
                    assert_eq!(*action, MenuAction::OpenRecent1);
                }
                other => panic!("unexpected {other:?}"),
            }
        }
        other => panic!("unexpected {other:?}"),
    }
}

#[test]
fn an_empty_recent_list_has_a_disabled_entry() {
    match build_open_recent_submenu(&[], None) {
        MenuItem::Submenu { entries, .. } => {
            assert!(matches!(
                entries[0],
                MenuEntry::Action { action: MenuAction::NoRecent, disabled: true, .. }
            ));
        }
        other => panic!("unexpected {other:?}"),
    }
}

#[test]
fn each_slot_has_an_action_of_its_own() {
    let mut seen: Vec<MenuAction> = Vec::new();
    for i in 0..OPEN_RECENT_SLOTS {
        match menu_item_for_index(i, format!("p{i}")) {
            MenuEntry::Action { action, label, .. } => {
                assert_eq!(label, format!("p{i}"));
                assert!(!seen.contains(&action));
                seen.push(action);
            }
            other => panic!("unexpected {other:?}"),
        }
    }
    assert_eq!(seen.len(), 5);
}

#[test]
fn plain_letters_do_not_fire_while_typing() {
    for s in shortcuts() {
        if s.keystroke.len() == 1 {
            assert!(s.not_in_search, "{} must not fire in the search box", s.keystroke);
        }
    }
}
