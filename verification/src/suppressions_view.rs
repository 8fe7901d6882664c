//! The groups that the user has dismissed: the texts of the banner over such a
//! group and of its row in the sidebar.
use crate::app_state::{leading, AppState, OccurrenceDismissal, SuppressionView};
use crate::dates::{format_unix_date, is_date_of};
use crate::text::{hex, push_hex};
use vstd::prelude::*;
use vstd::string::*;

verus! {

/// The background of the row of the group that is selected.
pub const SELECTED_ROW_BG: u32 = 0x3b3b48;

/// `text` is the day of a dismissal. A time that is not after the start of 1970
/// stands for a day that is not known.
pub open spec fn is_day_of(ts: int, text: Seq<char>) -> bool {
    if ts <= 0 {
        text == "unknown date"@
    } else {
        is_date_of(ts, text)
    }
}

/// The day of a dismissal as `YYYY-MM-DD` in UTC.
pub fn format_dismissed_date(ts: i64) -> (r: String)
    ensures
        is_day_of(ts as int, r@),
{
    if ts <= 0 {
        "unknown date".to_owned()
    } else {
        format_unix_date(ts)
    }
}

/// `text` says when a group was dismissed.
pub open spec fn is_headline(ts: int, text: Seq<char>) -> bool {
    exists|day: Seq<char>| #[trigger] is_day_of(ts, day) && text == "Dismissed on "@ + day
}

/// The text that says when a group was dismissed.
pub fn banner_headline(s: &SuppressionView) -> (r: String)
    ensures
        is_headline(s.dismissed_at as int, r@),
{
    let mut out: String = "Dismissed on ".to_owned();
    let day: String = format_dismissed_date(s.dismissed_at);
    out.append(day.as_str());
    assert(is_day_of(s.dismissed_at as int, day@));
    out
}

/// The name of the button that restores a group.
pub fn restore_button(hash: u64) -> (r: String)
    ensures
        r@ == "suppr-restore-"@ + hex(hash as nat, 16),
{
    let mut out: String = "suppr-restore-".to_owned();
    push_hex(&mut out, hash, 16);
    out
}

/// A line of the banner for one dismissed occurrence.
#[derive(Debug)]
pub struct DismissalRow {
    /// The name of the button that restores it.
    pub id: String,
    /// What the line says.
    pub text: String,
    /// The file of the occurrence.
    pub path: String,
}

/// `row` is the line for an occurrence that was dismissed at `ts`.
pub open spec fn is_dismissal_row(hash: u64, path: Seq<char>, ts: int, row: DismissalRow) -> bool {
    &&& row.path@ == path
    &&& row.id@ == "suppr-restore-occ-"@ + hex(hash as nat, 16) + "-"@ + path
    &&& exists|day: Seq<char>| #[trigger]
        is_day_of(ts, day) && row.text@ == path + " \u{2014} dismissed "@ + day + " \u{2014}"@
}

/// The line for one dismissed occurrence.
pub fn dismissal_row(hash: u64, od: &OccurrenceDismissal) -> (r: DismissalRow)
    ensures
        is_dismissal_row(hash, od.path@, od.dismissed_at as int, r),
{
    let day: String = format_dismissed_date(od.dismissed_at);
    assert(is_day_of(od.dismissed_at as int, day@));
    let mut id: String = "suppr-restore-occ-".to_owned();
    push_hex(&mut id, hash, 16);
    id.append("-");
    id.append(od.path.as_str());
    let mut text: String = od.path.clone();
    text.append(" \u{2014} dismissed ");
    text.append(day.as_str());
    text.append(" \u{2014}");
    DismissalRow { id, text, path: od.path.clone() }
}

/// The banner over a dismissed group.
#[derive(Debug)]
pub struct DismissedBanner {
    /// When the group was dismissed, with a dash before the button.
    pub headline: String,
    /// The name of the button that restores the group.
    pub restore_id: String,
    /// The group to restore.
    pub hash: u64,
    /// A line for each dismissed occurrence. Where there is none, the caption
    /// above them is left out too.
    pub rows: Vec<DismissalRow>,
}

/// The banner over a dismissed group.
pub fn dismissed_banner(s: &SuppressionView) -> (r: DismissedBanner)
    ensures
        r.hash == s.hash,
        r.restore_id@ == "suppr-restore-"@ + hex(s.hash as nat, 16),
        exists|text: Seq<char>| #[trigger]
            is_headline(s.dismissed_at as int, text) && r.headline@ == text + " \u{2014}"@,
        r.rows@.len() == s.occurrence_dismissals@.len(),
        forall|i: int|
            0 <= i < r.rows@.len() ==> is_dismissal_row(
                s.hash,
                s.occurrence_dismissals@[i].path@,
                s.occurrence_dismissals@[i].dismissed_at as int,
                #[trigger] r.rows@[i],
            ),
{
    let mut headline: String = banner_headline(s);
    assert(is_headline(s.dismissed_at as int, headline@));
    headline.append(" \u{2014}");
    let mut rows: Vec<DismissalRow> = Vec::new();
    let mut i: usize = 0;
    while i < s.occurrence_dismissals.len()
        invariant
            i <= s.occurrence_dismissals.len(),
            rows@.len() == i,
            forall|k: int|
                0 <= k < i ==> is_dismissal_row(
                    s.hash,
                    s.occurrence_dismissals@[k].path@,
                    s.occurrence_dismissals@[k].dismissed_at as int,
                    #[trigger] rows@[k],
                ),
        decreases s.occurrence_dismissals.len() - i,
    {
        rows.push(dismissal_row(s.hash, &s.occurrence_dismissals[i]));
        i += 1;
    }
    DismissedBanner { headline, restore_id: restore_button(s.hash), hash: s.hash, rows }
}

/// The row of a dismissed group in the sidebar.
#[derive(Debug)]
pub struct DismissedRow {
    pub label: String,
    /// The group that a click selects, if its number is known.
    pub click_id: Option<i64>,
    /// The name of the button that restores the group.
    pub restore_id: String,
    /// The group to restore.
    pub hash: u64,
    /// A background of its own, for the group that is selected.
    pub background: Option<u32>,
}

/// `r` is the row of a dismissed group in the sidebar.
pub open spec fn is_row_of(s: SuppressionView, selected: bool, r: DismissedRow) -> bool {
    &&& r.label@ == "Dismissed block (hash "@ + leading(s.hash_hex@, 12) + "\u{2026})"@
    &&& r.click_id == s.last_group_id
    &&& r.restore_id@ == "suppr-restore-"@ + hex(s.hash as nat, 16)
    &&& r.hash == s.hash
    &&& r.background == if selected {
        Some(SELECTED_ROW_BG)
    } else {
        None
    }
}

/// The row of a dismissed group in the sidebar.
pub fn dismissed_row(s: &SuppressionView, selected: bool) -> (r: DismissedRow)
    ensures
        is_row_of(*s, selected, r),
{
    DismissedRow {
        label: s.label(),
        click_id: s.last_group_id,
        restore_id: restore_button(s.hash),
        hash: s.hash,
        background: if selected {
            Some(SELECTED_ROW_BG)
        } else {
            None
        },
    }
}

/// The rows of the dismissed groups in the sidebar, if their list is open. The
/// selected group is the one whose number is selected.
pub fn dismissed_rows(state: &AppState) -> (r: Vec<DismissedRow>)
    ensures
        !state.dismissed_expanded ==> r@.len() == 0,
        state.dismissed_expanded ==> {
            &&& r@.len() == state.dismissed@.len()
            &&& forall|i: int|
                0 <= i < r@.len() ==> is_row_of(
                    state.dismissed@[i],
                    state.dismissed@[i].last_group_id is Some && state.selected_group
                        == state.dismissed@[i].last_group_id,
                    #[trigger] r@[i],
                )
        },
{
    let mut out: Vec<DismissedRow> = Vec::new();
    if !state.dismissed_expanded {
        return out;
    }
    let mut i: usize = 0;
    while i < state.dismissed.len()
        invariant
            i <= state.dismissed.len(),
            out@.len() == i,
            forall|k: int|
                0 <= k < i ==> is_row_of(
                    state.dismissed@[k],
                    state.dismissed@[k].last_group_id is Some && state.selected_group
                        == state.dismissed@[k].last_group_id,
                    #[trigger] out@[k],
                ),
        decreases state.dismissed.len() - i,
    {
        let s: &SuppressionView = &state.dismissed[i];
        let selected: bool = match (state.selected_group, s.last_group_id) {
            (Some(a), Some(b)) => a == b,
            _ => false,
        };
        out.push(dismissed_row(s, selected));
        i += 1;
    }
    out
}

/// What is said of a dismissal has its day in it, or that the day is not known.
pub proof fn law_day_is_said(ts: int, text: Seq<char>)
    requires
        is_headline(ts, text),
    ensures
        ts <= 0 ==> text == "Dismissed on "@ + "unknown date"@,
        ts > 0 ==> exists|day: Seq<char>| #[trigger]
            is_date_of(ts, day) && text == "Dismissed on "@ + day,
{
    let day = choose|day: Seq<char>| #[trigger]
        is_day_of(ts, day) && text == "Dismissed on "@ + day;
    if ts > 0 {
        assert(is_date_of(ts, day));
    }
}

/// The line of a dismissed occurrence names its file and its day, and its button
/// names the group and the file, so that no two lines of a banner share a button
/// unless they are of the same file.
pub proof fn law_dismissal_lines(hash: u64, path: Seq<char>, ts: int, row: DismissalRow)
    requires
        is_dismissal_row(hash, path, ts, row),
    ensures
        row.path@ == path,
        row.id@ == "suppr-restore-occ-"@ + hex(hash as nat, 16) + "-"@ + path,
        ts <= 0 ==> row.text@ == path + " \u{2014} dismissed "@ + "unknown date"@ + " \u{2014}"@,
        ts > 0 ==> exists|day: Seq<char>| #[trigger]
            is_date_of(ts, day) && row.text@ == path + " \u{2014} dismissed "@ + day + " \u{2014}"@,
{
    let day = choose|day: Seq<char>| #[trigger]
        is_day_of(ts, day) && row.text@ == path + " \u{2014} dismissed "@ + day + " \u{2014}"@;
    if ts > 0 {
        assert(is_date_of(ts, day));
    }
}

/// The row of a dismissed group stands for that group: a click selects it, its
/// button restores it, and it has a background exactly where it is selected.
pub proof fn law_dismissed_row(s: SuppressionView, selected: bool, r: DismissedRow)
    requires
        is_row_of(s, selected, r),
    ensures
        r.hash == s.hash,
        r.click_id == s.last_group_id,
        r.restore_id@ == "suppr-restore-"@ + hex(s.hash as nat, 16),
        r.background is Some <==> selected,
        r.background matches Some(color) ==> color == 0x3b3b48,
        s.hash_hex@.len() > 12 ==> r.label@ == "Dismissed block (hash "@ + s.hash_hex@.take(12)
            + "\u{2026})"@,
        s.hash_hex@.len() <= 12 ==> r.label@ == "Dismissed block (hash "@ + s.hash_hex@
            + "\u{2026})"@,
{
}

} // verus!
