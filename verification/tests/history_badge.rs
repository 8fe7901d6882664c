use dedup::history_badge::{
    build_badge_map, classify, from_diff_row, DiffKind, DiffRow, HistoryBadge, ScanGroupRow,
};

#[test]
fn classify_golden_table() {
    let cases: &[(i64, i64, HistoryBadge)] = &[
        (0, 0, HistoryBadge::Unchanged),
        (0, 1, HistoryBadge::New),
        (0, 5, HistoryBadge::New),
        (1, 0, HistoryBadge::Gone),
        (7, 0, HistoryBadge::Gone),
        (2, 2, HistoryBadge::Unchanged),
        (2, 5, HistoryBadge::Grew { delta: 3 }),
        (2, 3, HistoryBadge::Grew { delta: 1 }),
        (5, 2, HistoryBadge::Shrank { delta: 3 }),
        (3, 2, HistoryBadge::Shrank { delta: 1 }),
        (100, 250, HistoryBadge::Grew { delta: 150 }),
        (250, 100, HistoryBadge::Shrank { delta: 150 }),
    ];
    for (b, h, expected) in cases {
        let got = classify(*b, *h);
        assert_eq!(
            got, *expected,
            "classify({b}, {h}) = {got:?}, want {expected:?}"
        );
    }
}

#[test]
fn label_strings_match_prd() {
    assert_eq!(HistoryBadge::New.label(), "NEW");
    assert_eq!(HistoryBadge::Gone.label(), "GONE");
    assert_eq!(
        HistoryBadge::Grew { delta: 3 }.label(),
        "GREW \u{2191}3",
        "Grew label must render with the up-arrow glyph"
    );
    assert_eq!(
        HistoryBadge::Shrank { delta: 2 }.label(),
        "SHRANK \u{2193}2",
        "Shrank label must render with the down-arrow glyph"
    );
    assert_eq!(HistoryBadge::Unchanged.label(), "");
}

#[test]
fn is_visible_skips_only_unchanged() {
    assert!(HistoryBadge::New.is_visible());
    assert!(HistoryBadge::Gone.is_visible());
    assert!(HistoryBadge::Grew { delta: 1 }.is_visible());
    assert!(HistoryBadge::Shrank { delta: 1 }.is_visible());
    assert!(!HistoryBadge::Unchanged.is_visible());
}

fn sgrow(hash: u64, occ: i64) -> ScanGroupRow {
    ScanGroupRow {
        group_hash: hash,
        occurrence_count: occ,
        total_lines: occ * 10,
    }
}

#[test]
fn build_badge_map_spans_union_of_both_scans() {
    let base = vec![sgrow(1, 2), sgrow(2, 4), sgrow(3, 3)];
    let head = vec![sgrow(2, 6), sgrow(3, 3), sgrow(4, 1)];
    let map = build_badge_map(&base, &head);
    assert_eq!(map.get(&1).copied(), Some(HistoryBadge::Gone));
    assert_eq!(
        map.get(&2).copied(),
        Some(HistoryBadge::Grew { delta: 2 })
    );
    assert_eq!(map.get(&3).copied(), Some(HistoryBadge::Unchanged));
    assert_eq!(map.get(&4).copied(), Some(HistoryBadge::New));
    assert_eq!(map.len(), 4);
}

#[test]
fn from_diff_row_delegates_to_kind() {
    let row = DiffRow {
        group_hash: 0xaa,
        kind: DiffKind::Grew,
        base_count: 2,
        head_count: 7,
    };
    assert_eq!(from_diff_row(&row), HistoryBadge::Grew { delta: 5 });
    let row = DiffRow {
        group_hash: 0xbb,
        kind: DiffKind::Shrank,
        base_count: 9,
        head_count: 4,
    };
    assert_eq!(from_diff_row(&row), HistoryBadge::Shrank { delta: 5 });
    let row = DiffRow {
        group_hash: 0xcc,
        kind: DiffKind::New,
        base_count: 0,
        head_count: 3,
    };
    assert_eq!(from_diff_row(&row), HistoryBadge::New);
    let row = DiffRow {
        group_hash: 0xdd,
        kind: DiffKind::Gone,
        base_count: 4,
        head_count: 0,
    };
    assert_eq!(from_diff_row(&row), HistoryBadge::Gone);
}

#[test]
fn a_change_and_its_reverse_cancel() {
    assert_eq!(classify(2, 5), HistoryBadge::Grew { delta: 3 });
    assert_eq!(classify(5, 2), HistoryBadge::Shrank { delta: 3 });
}

#[test]
fn every_pair_of_counts_has_a_badge() {
    assert_eq!(classify(i64::MIN, i64::MAX), HistoryBadge::Grew { delta: i64::MAX });
    assert_eq!(classify(i64::MAX, i64::MIN), HistoryBadge::Shrank { delta: i64::MAX });
    assert_eq!(classify(-1, i64::MAX), HistoryBadge::Grew { delta: i64::MAX });
    assert_eq!(classify(0, i64::MIN), HistoryBadge::Shrank { delta: i64::MAX });
    assert_eq!(classify(i64::MIN, i64::MIN), HistoryBadge::Unchanged);
}
