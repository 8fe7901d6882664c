//! Where log files lie, and which of them are old enough to be deleted.
use crate::paths::{join, joined};
use crate::recent::{config_dir, config_dir_of, opt_text};
use crate::text::{begins_with, chars_of, starts};
use vstd::prelude::*;
use vstd::string::*;

verus! {

/// How many dated log files are kept.
pub const MAX_LOG_FILES: usize = 7;

/// The folder for log files, from `XDG_CONFIG_HOME` and `HOME`. Without either
/// there is none.
pub fn log_dir(xdg: Option<&str>, home: Option<&str>) -> (r: Option<String>)
    ensures
        match (r, config_dir_of(opt_text(xdg), opt_text(home))) {
            (Some(path), Some(dir)) => path@ == joined(dir, "logs"@),
            (None, None) => true,
            _ => false,
        },
{
    match config_dir(xdg, home) {
        Some(dir) => Some(join(dir.as_str(), "logs")),
        None => None,
    }
}

/// The name of a dated log file: `dedup.log.` and something more.
pub open spec fn is_rotated(name: Seq<char>) -> bool {
    begins_with(name, "dedup.log."@) && name.len() > "dedup.log."@.len()
}

/// Whether a file is a dated log file, by its name.
pub fn is_rotated_log(name: &str) -> (r: bool)
    ensures
        r == is_rotated(name@),
{
    let chars: Vec<char> = chars_of(name);
    let prefix: &str = "dedup.log.";
    starts(&chars, prefix) && chars.len() > prefix.unicode_len()
}

/// What a folder lists.
#[derive(Debug)]
pub struct LogEntry {
    pub name: String,
    /// Whether it is a plain file.
    pub is_file: bool,
    /// When it was last changed, in nanoseconds since 1970.
    pub mtime: i128,
}

/// An entry that is a dated log file.
pub open spec fn is_log(entries: Seq<LogEntry>, i: int) -> bool {
    entries[i].is_file && is_rotated(entries[i].name@)
}

/// Among the log files, `j` comes before `i` when the newest come first. Of two
/// files of the same age the one that is listed first comes first.
pub open spec fn comes_before(entries: Seq<LogEntry>, j: int, i: int) -> bool {
    is_log(entries, j) && (entries[j].mtime > entries[i].mtime || (entries[j].mtime
        == entries[i].mtime && j < i))
}

/// How many of the first `n` entries come before `i`.
pub open spec fn rank(entries: Seq<LogEntry>, i: int, n: int) -> nat
    decreases n,
{
    if n <= 0 {
        0
    } else {
        rank(entries, i, n - 1) + if comes_before(entries, n - 1, i) {
            1nat
        } else {
            0nat
        }
    }
}

/// A log file with `keep` or more before it is to be deleted.
pub open spec fn is_pruned(entries: Seq<LogEntry>, keep: int, i: int) -> bool {
    is_log(entries, i) && rank(entries, i, entries.len() as int) >= keep
}

/// The log files to delete, so that the `keep` newest remain, as places in the
/// list.
pub fn prune_old_logs(entries: &Vec<LogEntry>, keep: usize) -> (r: Vec<usize>)
    ensures
        forall|k: int|
            0 <= k < r@.len() ==> #[trigger] r@[k] < entries@.len() && is_pruned(
                entries@,
                keep as int,
                r@[k] as int,
            ),
        forall|i: int|
            0 <= i < entries@.len() && #[trigger] is_pruned(entries@, keep as int, i)
                ==> r@.contains(i as usize),
        forall|j: int, k: int| 0 <= j < k < r@.len() ==> r@[j] < r@[k],
{
    let mut out: Vec<usize> = Vec::new();
    let mut i: usize = 0;
    while i < entries.len()
        invariant
            i <= entries.len(),
            forall|k: int|
                0 <= k < out@.len() ==> #[trigger] out@[k] < i && is_pruned(
                    entries@,
                    keep as int,
                    out@[k] as int,
                ),
            forall|j: int|
                0 <= j < i && #[trigger] is_pruned(entries@, keep as int, j) ==> out@.contains(
                    j as usize,
                ),
            forall|j: int, k: int| 0 <= j < k < out@.len() ==> out@[j] < out@[k],
        decreases entries.len() - i,
    {
        if entries[i].is_file && is_rotated_log(entries[i].name.as_str()) {
            let ahead: usize = rank_of(entries, i);
            if ahead >= keep {
                let ghost before = out@;
                out.push(i);
                assert forall|j: int|
                    0 <= j < i + 1 && #[trigger] is_pruned(
                        entries@,
                        keep as int,
                        j,
                    ) implies out@.contains(j as usize) by {
                    if j < i {
                        let k = before.index_of(j as usize);
                        assert(out@[k] == j as usize);
                    } else {
                        assert(out@[before.len() as int] == i);
                    }
                }
            }
        }
        i += 1;
    }
    out
}

/// How many log files come before `i`.
fn rank_of(entries: &Vec<LogEntry>, i: usize) -> (r: usize)
    requires
        i < entries.len(),
    ensures
        r == rank(entries@, i as int, entries@.len() as int),
{
    let mut ahead: usize = 0;
    let mut n: usize = 0;
    while n < entries.len()
        invariant
            n <= entries.len(),
            i < entries.len(),
            ahead == rank(entries@, i as int, n as int),
            ahead <= n,
        decreases entries.len() - n,
    {
        let newer: bool = entries[n].mtime > entries[i].mtime || (entries[n].mtime
            == entries[i].mtime && n < i);
        if newer && entries[n].is_file && is_rotated_log(entries[n].name.as_str()) {
            ahead += 1;
        }
        n += 1;
    }
    ahead
}

/// What comes before `j` comes before everything that `j` comes before.
proof fn lemma_rank_grows(entries: Seq<LogEntry>, j: int, i: int, n: int)
    requires
        0 <= n <= entries.len(),
        comes_before(entries, j, i),
        is_log(entries, j),
    ensures
        rank(entries, j, n) + (if 0 <= j < n {
            1int
        } else {
            0int
        }) <= rank(entries, i, n),
    decreases n,
{
    if n > 0 {
        lemma_rank_grows(entries, j, i, n - 1);
        if comes_before(entries, n - 1, j) {
            assert(comes_before(entries, n - 1, i));
        }
    }
}

/// No log file that is kept is older than one that is deleted.
pub proof fn law_newest_are_kept(entries: Seq<LogEntry>, keep: int, kept: int, gone: int)
    requires
        0 <= kept < entries.len(),
        0 <= gone < entries.len(),
        is_log(entries, kept),
        !is_pruned(entries, keep, kept),
        is_pruned(entries, keep, gone),
    ensures
        entries[kept].mtime >= entries[gone].mtime,
{
    if entries[kept].mtime < entries[gone].mtime {
        assert(comes_before(entries, gone, kept));
        lemma_rank_grows(entries, gone, kept, entries.len() as int);
    }
}

/// The log files that are kept, as a set of places.
pub open spec fn kept_logs(entries: Seq<LogEntry>, keep: int) -> Set<int> {
    Set::new(
        |i: int| 0 <= i < entries.len() && is_log(entries, i) && !is_pruned(entries, keep, i),
    )
}

/// At most `keep` log files are kept.
pub proof fn law_few_are_kept(entries: Seq<LogEntry>, keep: int)
    requires
        keep >= 0,
    ensures
        kept_logs(entries, keep).finite(),
        kept_logs(entries, keep).len() <= keep,
{
    let n = entries.len() as int;
    let kept = kept_logs(entries, keep);
    let all = vstd::set_lib::set_int_range(0, n);
    vstd::set_lib::lemma_int_range(0, n);
    assert(kept.subset_of(all));
    vstd::set_lib::lemma_len_subset(kept, all);
    let place = |i: int| rank(entries, i, n) as int;
    let ranks = vstd::set_lib::set_int_range(0, keep);
    vstd::set_lib::lemma_int_range(0, keep);
    assert forall|i: int, j: int|
        kept.contains(i) && kept.contains(j) && #[trigger] place(i) == #[trigger] place(
            j,
        ) implies i == j by {
        if i != j {
            if comes_before(entries, i, j) {
                lemma_rank_grows(entries, i, j, n);
            } else {
                assert(comes_before(entries, j, i));
                lemma_rank_grows(entries, j, i, n);
            }
        }
    }
    let image = kept.map(place);
    assert(image.subset_of(ranks));
    vstd::set_lib::lemma_len_subset(image, ranks);
    vstd::set_lib::lemma_map_size(kept, image, place);
}

/// Where a folder lists no more than may be kept, nothing is deleted.
pub proof fn law_few_logs_stay(entries: Seq<LogEntry>, keep: int, i: int)
    requires
        entries.len() <= keep,
        0 <= i < entries.len(),
    ensures
        !is_pruned(entries, keep, i),
{
    lemma_rank_bound(entries, i, entries.len() as int);
}

/// Not every entry comes before a given one.
proof fn lemma_rank_bound(entries: Seq<LogEntry>, i: int, n: int)
    requires
        0 <= n <= entries.len(),
    ensures
        rank(entries, i, n) <= n,
        0 <= i < n ==> rank(entries, i, n) < n,
    decreases n,
{
    if n > 0 {
        lemma_rank_bound(entries, i, n - 1);
    }
}

/// A dated log file is named `dedup.log.` with something behind it.
pub proof fn law_dated_names(name: Seq<char>)
    ensures
        is_rotated(name) <==> exists|date: Seq<char>|
            date.len() > 0 && name == #[trigger] ("dedup.log."@ + date),
{
    let prefix = "dedup.log."@;
    let n = prefix.len() as int;
    if is_rotated(name) {
        assert(name =~= prefix + name.skip(n));
    }
    if exists|date: Seq<char>| date.len() > 0 && name == #[trigger] (prefix + date) {
        let date = choose|date: Seq<char>| date.len() > 0 && name == #[trigger] (prefix + date);
        assert(name.take(n) =~= prefix);
    }
}

/// A file is deleted exactly where it is a dated log file with at least as many
/// before it as are to be kept: newer ones, or as old and listed earlier. No
/// other file counts, and none is deleted.
pub proof fn law_old_logs_are_deleted(entries: Seq<LogEntry>, keep: int, i: int)
    requires
        0 <= i < entries.len(),
    ensures
        is_pruned(entries, keep, i) <==> entries[i].is_file && is_rotated(entries[i].name@)
            && Seq::new(entries.len(), |j: int| j).filter(
            |j: int|
                entries[j].is_file && is_rotated(entries[j].name@) && (entries[j].mtime
                    > entries[i].mtime || (entries[j].mtime == entries[i].mtime && j < i)),
        ).len() >= keep,
{
    let all = Seq::new(entries.len(), |j: int| j);
    assert(all.take(entries.len() as int) =~= all);
    lemma_rank_counts(entries, i, entries.len() as int);
}

/// The rank counts what comes before.
proof fn lemma_rank_counts(entries: Seq<LogEntry>, i: int, n: int)
    requires
        0 <= n <= entries.len(),
    ensures
        rank(entries, i, n) == Seq::new(entries.len(), |j: int| j).take(n).filter(
            |j: int|
                entries[j].is_file && is_rotated(entries[j].name@) && (entries[j].mtime
                    > entries[i].mtime || (entries[j].mtime == entries[i].mtime && j < i)),
        ).len(),
    decreases n,
{
    reveal(Seq::filter);
    if n > 0 {
        let all = Seq::new(entries.len(), |j: int| j);
        lemma_rank_counts(entries, i, n - 1);
        assert(all.take(n).drop_last() =~= all.take(n - 1));
        assert(all.take(n).last() == n - 1);
    }
}

} // verus!
