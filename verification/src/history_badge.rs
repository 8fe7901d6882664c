//! How a duplicate group changed between two scans.
use crate::text::{dec_int, push_dec_int};
use std::collections::HashMap;
use vstd::prelude::*;
use vstd::string::*;

verus! {

broadcast use vstd::std_specs::hash::group_hash_axioms;

/// The change of a group's number of occurrences from one scan to a later one.
#[derive(Debug, Clone, Copy, PartialEq, Eq, Hash, Structural)]
pub enum HistoryBadge {
    /// It is there only now.
    New,
    /// It has more occurrences than before.
    Grew { delta: i64 },
    /// It has fewer occurrences than before.
    Shrank { delta: i64 },
    /// It was there only before.
    Gone,
    /// It has as many occurrences as before.
    Unchanged,
}

/// The text on a badge.
pub open spec fn badge_text(badge: HistoryBadge) -> Seq<char> {
    match badge {
        HistoryBadge::New => "NEW"@,
        HistoryBadge::Grew { delta } => "GREW \u{2191}"@ + dec_int(delta as int),
        HistoryBadge::Shrank { delta } => "SHRANK \u{2193}"@ + dec_int(delta as int),
        HistoryBadge::Gone => "GONE"@,
        HistoryBadge::Unchanged => Seq::empty(),
    }
}

impl HistoryBadge {
    /// The text on the badge. It is empty where nothing changed.
    pub fn label(self) -> (r: String)
        ensures
            r@ == badge_text(self),
    {
        match self {
            HistoryBadge::New => "NEW".to_owned(),
            HistoryBadge::Grew { delta } => {
                let mut out: String = "GREW \u{2191}".to_owned();
                push_dec_int(&mut out, delta);
                out
            },
            HistoryBadge::Shrank { delta } => {
                let mut out: String = "SHRANK \u{2193}".to_owned();
                push_dec_int(&mut out, delta);
                out
            },
            HistoryBadge::Gone => "GONE".to_owned(),
            HistoryBadge::Unchanged => String::new(),
        }
    }

    /// Whether the badge is shown.
    pub fn is_visible(self) -> (r: bool)
        ensures
            r == (self != HistoryBadge::Unchanged),
    {
        match self {
            HistoryBadge::Unchanged => false,
            _ => true,
        }
    }
}

/// How many more occurrences `more` is than `less`, or the largest number where
/// the difference is larger.
pub open spec fn step(less: int, more: int) -> i64 {
    if more - less > i64::MAX {
        i64::MAX
    } else {
        (more - less) as i64
    }
}

/// The change from `base` to `head` occurrences, where zero stands for a group
/// that is not there.
pub open spec fn change(base: int, head: int) -> HistoryBadge {
    if base == head {
        HistoryBadge::Unchanged
    } else if base == 0 && head > 0 {
        HistoryBadge::New
    } else if head == 0 && base > 0 {
        HistoryBadge::Gone
    } else if head > base {
        HistoryBadge::Grew { delta: step(base, head) }
    } else {
        HistoryBadge::Shrank { delta: step(head, base) }
    }
}

/// How many more occurrences `more` is than `less`.
fn step_up(less: i64, more: i64) -> (r: i64)
    requires
        less < more,
    ensures
        r == step(less as int, more as int),
{
    match more.checked_sub(less) {
        Some(delta) => delta,
        None => i64::MAX,
    }
}

/// The change from `base_count` to `head_count` occurrences.
pub fn classify(base_count: i64, head_count: i64) -> (r: HistoryBadge)
    ensures
        r == change(base_count as int, head_count as int),
{
    if base_count == head_count {
        HistoryBadge::Unchanged
    } else if base_count == 0 && head_count > 0 {
        HistoryBadge::New
    } else if head_count == 0 && base_count > 0 {
        HistoryBadge::Gone
    } else if head_count > base_count {
        HistoryBadge::Grew { delta: step_up(base_count, head_count) }
    } else {
        HistoryBadge::Shrank { delta: step_up(head_count, base_count) }
    }
}

/// What a scan recorded of a group.
#[derive(Debug, Clone, Copy, PartialEq, Eq)]
pub struct ScanGroupRow {
    /// The group.
    pub group_hash: u64,
    /// How many occurrences it had.
    pub occurrence_count: i64,
    /// How many lines they had together.
    pub total_lines: i64,
}

/// A scan recorded a group.
pub open spec fn recorded(rows: Seq<ScanGroupRow>, hash: u64) -> bool {
    exists|i: int| 0 <= i < rows.len() && (#[trigger] rows[i]).group_hash == hash
}

/// How many occurrences a scan counted of a group: the last record holds, and
/// there are none where there is no record.
pub open spec fn count_of(rows: Seq<ScanGroupRow>, hash: u64) -> int
    decreases rows.len(),
{
    if rows.len() == 0 {
        0
    } else if rows.last().group_hash == hash {
        rows.last().occurrence_count as int
    } else {
        count_of(rows.drop_last(), hash)
    }
}

/// The counts of a scan.
fn counts(rows: &[ScanGroupRow]) -> (r: HashMap<u64, i64>)
    ensures
        forall|hash: u64| #[trigger] r@.dom().contains(hash) <==> recorded(rows@, hash),
        forall|hash: u64| #[trigger] r@.dom().contains(hash) ==> r@[hash] == count_of(rows@, hash),
{
    let mut out: HashMap<u64, i64> = HashMap::new();
    let mut i: usize = 0;
    while i < rows.len()
        invariant
            i <= rows.len(),
            forall|hash: u64| #[trigger]
                out@.dom().contains(hash) <==> recorded(rows@.take(i as int), hash),
            forall|hash: u64| #[trigger]
                out@.dom().contains(hash) ==> out@[hash] == count_of(rows@.take(i as int), hash),
        decreases rows.len() - i,
    {
        let ghost before = rows@.take(i as int);
        let ghost now = rows@.take(i + 1);
        assert(now.drop_last() =~= before);
        assert forall|hash: u64| recorded(now, hash) <==> recorded(before, hash) || rows@[i as int].group_hash
            == hash by {
            if recorded(before, hash) {
                let k = choose|k: int| 0 <= k < before.len() && before[k].group_hash == hash;
                assert(now[k].group_hash == hash);
            }
            if rows@[i as int].group_hash == hash {
                assert(now[i as int].group_hash == hash);
            }
            if recorded(now, hash) && rows@[i as int].group_hash != hash {
                let k = choose|k: int| 0 <= k < now.len() && now[k].group_hash == hash;
                assert(before[k].group_hash == hash);
            }
        }
        out.insert(rows[i].group_hash, rows[i].occurrence_count);
        i += 1;
    }
    assert(rows@.take(i as int) =~= rows@);
    out
}

/// A group without a record has no occurrences.
proof fn lemma_no_record(rows: Seq<ScanGroupRow>, hash: u64)
    requires
        !recorded(rows, hash),
    ensures
        count_of(rows, hash) == 0,
    decreases rows.len(),
{
    if rows.len() > 0 {
        assert(rows[rows.len() - 1].group_hash != hash);
        assert forall|i: int| 0 <= i < rows.drop_last().len() implies (
        #[trigger] rows.drop_last()[i]).group_hash != hash by {
            assert(rows.drop_last()[i] == rows[i]);
        }
        lemma_no_record(rows.drop_last(), hash);
    }
}

/// The number stored for a group, or zero.
fn count_in(map: &HashMap<u64, i64>, hash: u64) -> (r: i64)
    ensures
        r == if map@.dom().contains(hash) {
            map@[hash]
        } else {
            0i64
        },
{
    match map.get(&hash) {
        Some(n) => *n,
        None => 0,
    }
}

/// The badge of each group that one of two scans recorded.
pub fn build_badge_map(base: &[ScanGroupRow], head: &[ScanGroupRow]) -> (r: HashMap<
    u64,
    HistoryBadge,
>)
    ensures
        forall|hash: u64| #[trigger]
            r@.dom().contains(hash) <==> recorded(base@, hash) || recorded(head@, hash),
        forall|hash: u64| #[trigger]
            r@.dom().contains(hash) ==> r@[hash] == change(
                count_of(base@, hash),
                count_of(head@, hash),
            ),
{
    let before: HashMap<u64, i64> = counts(base);
    let now: HashMap<u64, i64> = counts(head);
    let mut out: HashMap<u64, HistoryBadge> = HashMap::new();
    badge_rows(base, base, head, &before, &now, &mut out);
    let ghost half = out@;
    badge_rows(head, base, head, &before, &now, &mut out);
    assert forall|hash: u64| #[trigger] out@.dom().contains(hash) implies out@[hash] == change(
        count_of(base@, hash),
        count_of(head@, hash),
    ) by {
        if !recorded(head@, hash) {
            assert(half.dom().contains(hash));
        }
    }
    out
}

/// Adds the badges of the groups that `rows` names.
fn badge_rows(
    rows: &[ScanGroupRow],
    base: &[ScanGroupRow],
    head: &[ScanGroupRow],
    before: &HashMap<u64, i64>,
    now: &HashMap<u64, i64>,
    out: &mut HashMap<u64, HistoryBadge>,
)
    requires
        forall|hash: u64| #[trigger] before@.dom().contains(hash) <==> recorded(base@, hash),
        forall|hash: u64| #[trigger]
            before@.dom().contains(hash) ==> before@[hash] == count_of(base@, hash),
        forall|hash: u64| #[trigger] now@.dom().contains(hash) <==> recorded(head@, hash),
        forall|hash: u64| #[trigger]
            now@.dom().contains(hash) ==> now@[hash] == count_of(head@, hash),
    ensures
        forall|hash: u64| #[trigger]
            final(out)@.dom().contains(hash) <==> old(out)@.dom().contains(hash) || recorded(
                rows@,
                hash,
            ),
        forall|hash: u64|
            recorded(rows@, hash) ==> #[trigger] final(out)@[hash] == change(
                count_of(base@, hash),
                count_of(head@, hash),
            ),
        forall|hash: u64|
            old(out)@.dom().contains(hash) && !recorded(rows@, hash) ==> #[trigger] final(out)@[hash]
                == old(out)@[hash],
{
    let mut i: usize = 0;
    while i < rows.len()
        invariant
            i <= rows.len(),
            forall|hash: u64| #[trigger] before@.dom().contains(hash) <==> recorded(base@, hash),
            forall|hash: u64| #[trigger]
                before@.dom().contains(hash) ==> before@[hash] == count_of(base@, hash),
            forall|hash: u64| #[trigger] now@.dom().contains(hash) <==> recorded(head@, hash),
            forall|hash: u64| #[trigger]
                now@.dom().contains(hash) ==> now@[hash] == count_of(head@, hash),
            forall|hash: u64| #[trigger]
                out@.dom().contains(hash) <==> old(out)@.dom().contains(hash) || recorded(
                    rows@.take(i as int),
                    hash,
                ),
            forall|hash: u64|
                recorded(rows@.take(i as int), hash) ==> #[trigger] out@[hash] == change(
                    count_of(base@, hash),
                    count_of(head@, hash),
                ),
            forall|hash: u64|
                old(out)@.dom().contains(hash) && !recorded(rows@.take(i as int), hash)
                    ==> #[trigger] out@[hash] == old(out)@[hash],
        decreases rows.len() - i,
    {
        let hash: u64 = rows[i].group_hash;
        proof {
            let upto = rows@.take(i as int);
            let next = rows@.take(i + 1);
            assert forall|h: u64| recorded(next, h) <==> recorded(upto, h) || hash == h by {
                if recorded(upto, h) {
                    let k = choose|k: int| 0 <= k < upto.len() && upto[k].group_hash == h;
                    assert(next[k].group_hash == h);
                }
                if hash == h {
                    assert(next[i as int].group_hash == h);
                }
                if recorded(next, h) && hash != h {
                    let k = choose|k: int| 0 <= k < next.len() && next[k].group_hash == h;
                    assert(upto[k].group_hash == h);
                }
            }
            if !recorded(base@, hash) {
                lemma_no_record(base@, hash);
            }
            if !recorded(head@, hash) {
                lemma_no_record(head@, hash);
            }
        }
        let b: i64 = count_in(before, hash);
        let h: i64 = count_in(now, hash);
        out.insert(hash, classify(b, h));
        i += 1;
    }
    assert(rows@.take(i as int) =~= rows@);
}

/// What became of a group between two scans.
#[derive(Debug, Clone, Copy, PartialEq, Eq, Structural)]
pub enum DiffKind {
    New,
    Gone,
    Grew,
    Shrank,
}

/// A group that differs between two scans.
#[derive(Debug, Clone, Copy, PartialEq, Eq)]
pub struct DiffRow {
    /// The group.
    pub group_hash: u64,
    /// What became of it.
    pub kind: DiffKind,
    /// How many occurrences it had before.
    pub base_count: i64,
    /// How many it has now.
    pub head_count: i64,
}

/// The badge for a difference that is already classified.
pub open spec fn row_badge(row: DiffRow) -> HistoryBadge {
    match row.kind {
        DiffKind::New => HistoryBadge::New,
        DiffKind::Gone => HistoryBadge::Gone,
        DiffKind::Grew => HistoryBadge::Grew { delta: (row.head_count - row.base_count) as i64 },
        DiffKind::Shrank => HistoryBadge::Shrank { delta: (row.base_count - row.head_count) as i64 },
    }
}

/// The badge for a difference that is already classified.
pub fn from_diff_row(row: &DiffRow) -> (r: HistoryBadge)
    requires
        row.kind == DiffKind::Grew ==> i64::MIN <= row.head_count - row.base_count <= i64::MAX,
        row.kind == DiffKind::Shrank ==> i64::MIN <= row.base_count - row.head_count <= i64::MAX,
    ensures
        r == row_badge(*row),
{
    match row.kind {
        DiffKind::New => HistoryBadge::New,
        DiffKind::Gone => HistoryBadge::Gone,
        DiffKind::Grew => HistoryBadge::Grew { delta: row.head_count - row.base_count },
        DiffKind::Shrank => HistoryBadge::Shrank { delta: row.base_count - row.head_count },
    }
}

/// A change is the opposite of the change back, a difference is more than zero,
/// and nothing is shown exactly where the counts agree.
pub proof fn law_change_and_back(base: i64, head: i64)
    ensures
        change(base as int, head as int) == HistoryBadge::Unchanged <==> base == head,
        change(base as int, head as int) == HistoryBadge::New <==> change(head as int, base as int)
            == HistoryBadge::Gone,
        match change(base as int, head as int) {
            HistoryBadge::Grew { delta } => delta == step(base as int, head as int) && delta > 0
                && change(head as int, base as int) == (HistoryBadge::Shrank { delta }),
            HistoryBadge::Shrank { delta } => delta == step(head as int, base as int) && delta > 0
                && change(head as int, base as int) == (HistoryBadge::Grew { delta }),
            _ => true,
        },
{
}

/// A group is new where it was not there before, gone where it is there no more,
/// and else it grew or shrank by the difference.
pub proof fn law_changes(base: i64, head: i64)
    requires
        base >= 0,
        head >= 0,
    ensures
        base == 0 && head > 0 ==> change(base as int, head as int) == HistoryBadge::New,
        base > 0 && head == 0 ==> change(base as int, head as int) == HistoryBadge::Gone,
        0 < base < head ==> change(base as int, head as int) == (HistoryBadge::Grew {
            delta: (head - base) as i64,
        }),
        base > head > 0 ==> change(base as int, head as int) == (HistoryBadge::Shrank {
            delta: (base - head) as i64,
        }),
        base == head ==> change(base as int, head as int) == HistoryBadge::Unchanged,
{
}

/// Badges say what became of the group, with an arrow and the difference.
pub proof fn law_badge_texts(delta: i64)
    ensures
        badge_text(HistoryBadge::New) == "NEW"@,
        badge_text(HistoryBadge::Gone) == "GONE"@,
        badge_text(HistoryBadge::Unchanged).len() == 0,
        badge_text(HistoryBadge::Grew { delta }) == "GREW \u{2191}"@ + dec_int(delta as int),
        badge_text(HistoryBadge::Shrank { delta }) == "SHRANK \u{2193}"@ + dec_int(delta as int),
{
}

/// The last record of a group counts, and without one there is nothing.
pub proof fn law_last_record_counts(rows: Seq<ScanGroupRow>, hash: u64, i: int)
    requires
        forall|j: int| i < j < rows.len() ==> (#[trigger] rows[j]).group_hash != hash,
        -1 <= i < rows.len(),
        i >= 0 ==> rows[i].group_hash == hash,
    ensures
        count_of(rows, hash) == if i >= 0 {
            rows[i].occurrence_count as int
        } else {
            0
        },
    decreases rows.len(),
{
    if rows.len() > 0 && i < rows.len() - 1 {
        assert(rows[rows.len() - 1].group_hash != hash);
        law_last_record_counts(rows.drop_last(), hash, i);
    }
}

/// A difference that is already classified keeps its kind, and says by how much.
pub proof fn law_row_badges(row: DiffRow)
    requires
        0 <= row.base_count,
        0 <= row.head_count,
    ensures
        row.kind == DiffKind::New ==> row_badge(row) == HistoryBadge::New,
        row.kind == DiffKind::Gone ==> row_badge(row) == HistoryBadge::Gone,
        row.kind == DiffKind::Grew ==> row_badge(row) is Grew && row_badge(row)->Grew_delta
            == row.head_count - row.base_count,
        row.kind == DiffKind::Shrank ==> row_badge(row) is Shrank && row_badge(row)->Shrank_delta
            == row.base_count - row.head_count,
{
}

/// A group that was there, or whose count is less than none, grew or shrank by the
/// difference, or by the largest number where the difference is larger.
pub proof fn law_differences_are_capped(base: i64, head: i64)
    requires
        base != 0,
        head != 0,
    ensures
        head > base ==> change(base as int, head as int) == (HistoryBadge::Grew {
            delta: if head - base <= i64::MAX {
                (head - base) as i64
            } else {
                i64::MAX
            },
        }),
        head < base ==> change(base as int, head as int) == (HistoryBadge::Shrank {
            delta: if base - head <= i64::MAX {
                (base - head) as i64
            } else {
                i64::MAX
            },
        }),
{
}

} // verus!
