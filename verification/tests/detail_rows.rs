use dedup::app_state::OccurrenceView;
use dedup::detail_rows::compute_cache_key;

fn occ(path: &str, s: i64, e: i64) -> OccurrenceView {
    OccurrenceView {
        path: path.to_string(),
        start_line: s,
        end_line: e,
        alpha_rename_spans: Vec::new(),
    }
}

#[test]
fn cache_key_stable_on_identical_inputs() {
    let occs = vec![occ("a.rs", 1, 5), occ("b.rs", 10, 20)];
    let collapsed = Vec::new();
    let selected = Vec::new();
    let dismissed = Vec::new();
    let k1 = compute_cache_key(Some(1), &occs, &collapsed, &selected, &dismissed, 3);
    let k2 = compute_cache_key(Some(1), &occs, &collapsed, &selected, &dismissed, 3);
    assert_eq!(k1, k2);
}

#[test]
fn cache_key_changes_on_group_change() {
    let occs = vec![occ("a.rs", 1, 5)];
    let c = Vec::new();
    let s = Vec::new();
    let d = Vec::new();
    let k1 = compute_cache_key(Some(1), &occs, &c, &s, &d, 3);
    let k2 = compute_cache_key(Some(2), &occs, &c, &s, &d, 3);
    assert_ne!(k1, k2);
}

#[test]
fn cache_key_changes_on_collapse_toggle() {
    let occs = vec![occ("a.rs", 1, 5), occ("b.rs", 10, 20)];
    let mut c1 = Vec::new();
    let c2: Vec<(i64, usize)> = vec![(1i64, 0usize)];
    let s = Vec::new();
    let d = Vec::new();
    let k1 = compute_cache_key(Some(1), &occs, &c1, &s, &d, 3);
    let k2 = compute_cache_key(Some(1), &occs, &c2, &s, &d, 3);
    assert_ne!(k1, k2);

    c1.push((99, 0));
    let k3 = compute_cache_key(Some(1), &occs, &c1, &s, &d, 3);
    let k4 = compute_cache_key(Some(1), &occs, &Vec::new(), &s, &d, 3);
    assert_eq!(k3, k4);
}

#[test]
fn cache_key_changes_on_occurrences_change() {
    let c = Vec::new();
    let s = Vec::new();
    let d = Vec::new();
    let occs1 = vec![occ("a.rs", 1, 5)];
    let occs2 = vec![occ("a.rs", 1, 5), occ("b.rs", 10, 20)];
    let k1 = compute_cache_key(Some(1), &occs1, &c, &s, &d, 3);
    let k2 = compute_cache_key(Some(1), &occs2, &c, &s, &d, 3);
    assert_ne!(k1, k2);

    let occs3 = vec![occ("a.rs", 2, 5)];
    let k3 = compute_cache_key(Some(1), &occs3, &c, &s, &d, 3);
    assert_ne!(k1, k3);
}

#[test]
fn cache_key_changes_on_context_lines() {
    let occs = vec![occ("a.rs", 1, 5)];
    let c = Vec::new();
    let s = Vec::new();
    let d = Vec::new();
    let k1 = compute_cache_key(Some(1), &occs, &c, &s, &d, 3);
    let k2 = compute_cache_key(Some(1), &occs, &c, &s, &d, 5);
    assert_ne!(k1, k2);
}

#[test]
fn cache_key_changes_on_selection_toggle() {
    let occs = vec![occ("a.rs", 1, 5), occ("b.rs", 10, 20)];
    let c = Vec::new();
    let s1: Vec<(i64, usize)> = vec![(1, 0)];
    let s2: Vec<(i64, usize)> = Vec::new();
    let d = Vec::new();
    let k1 = compute_cache_key(Some(1), &occs, &c, &s1, &d, 3);
    let k2 = compute_cache_key(Some(1), &occs, &c, &s2, &d, 3);
    assert_ne!(k1, k2);
}

#[test]
fn cache_key_ignores_the_order_of_the_sets() {
    let occs = vec![occ("a.rs", 1, 5), occ("b.rs", 10, 20)];
    let d = vec![(7u64, "a.rs".to_string()), (3, "b.rs".to_string())];
    let e = vec![(3u64, "b.rs".to_string()), (7, "a.rs".to_string())];
    let k1 = compute_cache_key(Some(1), &occs, &vec![(1, 0), (1, 1)], &vec![(1, 1), (1, 0)], &d, 3);
    let k2 = compute_cache_key(Some(1), &occs, &vec![(1, 1), (1, 0)], &vec![(1, 0), (1, 1)], &e, 3);
    assert_eq!(k1, k2);
}

#[test]
fn cache_key_carries_its_group() {
    let key = compute_cache_key(None, &Vec::new(), &Vec::new(), &Vec::new(), &Vec::new(), 0);
    assert_eq!(key.group_id, None);
}

#[test]
fn cache_key_ignores_how_a_path_is_written() {
    let none = Vec::new();
    let d = vec![(7u64, "x//y.rs".to_string())];
    let e = vec![(7u64, "x/y.rs".to_string())];
    let k1 = compute_cache_key(Some(1), &vec![occ("a//b.rs", 1, 5)], &none, &none, &d, 3);
    let k2 = compute_cache_key(Some(1), &vec![occ("a/./b.rs/", 1, 5)], &none, &none, &e, 3);
    let k3 = compute_cache_key(Some(1), &vec![occ("/a/b.rs", 1, 5)], &none, &none, &e, 3);
    assert_eq!(k1, k2);
    assert_ne!(k1, k3);
}

#[test]
fn cache_key_tells_a_long_path_from_numbers() {
    let none: Vec<(i64, usize)> = Vec::new();
    let short = OccurrenceView {
        path: "a".to_string(),
        start_line: 1,
        end_line: 1,
        alpha_rename_spans: vec![(1, 1, 0)],
    };
    let mut path = "a".to_string();
    for _ in 0..3 {
        path.push_str("\u{1}\u{0}\u{0}\u{0}\u{0}\u{0}\u{0}\u{0}");
    }
    let long = OccurrenceView { path, start_line: 1, end_line: 1, alpha_rename_spans: Vec::new() };
    let k1 = compute_cache_key(Some(1), &vec![short], &none, &none, &Vec::new(), 3);
    let k2 = compute_cache_key(Some(1), &vec![long], &none, &none, &Vec::new(), 3);
    assert_ne!(k1, k2);
}
