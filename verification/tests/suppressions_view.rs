use dedup::app_state::{OccurrenceDismissal, SuppressionView};
use dedup::suppressions_view::{
    banner_headline, dismissal_row, dismissed_banner, dismissed_row, format_dismissed_date,
    restore_button, SELECTED_ROW_BG,
};

fn suppression() -> SuppressionView {
    SuppressionView {
        hash: 0xabcd,
        hash_hex: "000000000000abcd".into(),
        last_group_id: Some(1),
        dismissed_at: 1_704_067_200,
        occurrences: Vec::new(),
        occurrence_dismissals: Vec::new(),
    }
}

#[test]
fn format_dismissed_date_examples() {
    assert_eq!(format_dismissed_date(0), "unknown date");
    assert_eq!(format_dismissed_date(86_400), "1970-01-02");
    assert_eq!(format_dismissed_date(1_704_067_200), "2024-01-01");
    assert_eq!(format_dismissed_date(1_709_164_800), "2024-02-29");
}

#[test]
fn banner_headline_carries_date() {
    let s = suppression();
    assert_eq!(banner_headline(&s), "Dismissed on 2024-01-01");
}

#[test]
fn times_before_the_epoch_are_unknown() {
    assert_eq!(format_dismissed_date(-86_400), "unknown date");
}

#[test]
fn a_banner_lists_its_dismissed_occurrences() {
    let mut s = suppression();
    s.occurrence_dismissals.push(OccurrenceDismissal {
        path: "a.rs".to_string(),
        dismissed_at: 86_400,
    });
    let banner = dismissed_banner(&s);
    assert_eq!(banner.hash, 0xabcd);
    assert_eq!(banner.headline, "Dismissed on 2024-01-01 \u{2014}");
    assert_eq!(banner.restore_id, restore_button(0xabcd));
    assert_eq!(banner.rows.len(), 1);
    assert_eq!(banner.rows[0].path, "a.rs");
    let row = dismissal_row(0xabcd, &s.occurrence_dismissals[0]);
    assert_eq!(row.text, banner.rows[0].text);
    assert!(row.text.contains("1970-01-02"));
}

#[test]
fn a_selected_row_is_painted() {
    let s = suppression();
    let plain = dismissed_row(&s, false);
    assert_eq!(plain.background, None);
    assert_eq!(plain.click_id, Some(1));
    assert_eq!(dismissed_row(&s, true).background, Some(SELECTED_ROW_BG));
    assert_eq!(plain.label, s.label());
}
