//! What the sidebar remembers between runs, apart from its width.
use crate::app_state::SortKey;
use crate::paths::{join, joined};
use crate::recent::{config_dir, config_dir_of, opt_text};
use crate::text::{comes_before, is_before, lemma_string_order, same_text};
use vstd::prelude::*;
use vstd::string::*;

verus! {

/// What the sidebar remembers.
#[derive(Debug, Clone, PartialEq)]
pub struct SidebarPrefs {
    /// Whether the sidebar is hidden.
    pub sidebar_hidden: bool,
    /// How groups are sorted. A file from before there was a choice has none.
    pub sort_key: Option<SortKey>,
    /// For each folder, whether its sparkline is collapsed, sorted by the folders.
    pub sparkline_collapsed: Vec<(String, bool)>,
}

/// What a list of folders says of one of them.
pub open spec fn said_of(list: Seq<(String, bool)>, folder: Seq<char>) -> Option<bool>
    decreases list.len(),
{
    if list.len() == 0 {
        None
    } else {
        match said_of(list.drop_last(), folder) {
            Some(v) => Some(v),
            None => if list.last().0@ == folder {
                Some(list.last().1)
            } else {
                None
            },
        }
    }
}

/// The first folder of that name says it.
proof fn lemma_said_of(list: Seq<(String, bool)>, folder: Seq<char>, n: int)
    requires
        0 <= n < list.len(),
        forall|k: int| 0 <= k < n ==> (#[trigger] list[k]).0@ != folder,
        list[n].0@ == folder,
    ensures
        said_of(list, folder) == Some(list[n].1),
    decreases list.len(),
{
    if n == list.len() - 1 {
        lemma_not_said(list.drop_last(), folder);
    } else {
        lemma_said_of(list.drop_last(), folder, n);
    }
}

/// A folder that is not in the list has nothing said of it.
proof fn lemma_not_said(list: Seq<(String, bool)>, folder: Seq<char>)
    requires
        forall|k: int| 0 <= k < list.len() ==> (#[trigger] list[k]).0@ != folder,
    ensures
        said_of(list, folder) is None,
    decreases list.len(),
{
    if list.len() > 0 {
        lemma_not_said(list.drop_last(), folder);
    }
}

/// A change at a folder leaves what is said of the others.
proof fn lemma_update(list: Seq<(String, bool)>, n: int, new: (String, bool), folder: Seq<char>)
    requires
        0 <= n < list.len(),
        new.0@ == list[n].0@,
        folder != new.0@,
    ensures
        said_of(list.update(n, new), folder) == said_of(list, folder),
    decreases list.len(),
{
    let after = list.update(n, new);
    if n == list.len() - 1 {
        assert(after.drop_last() =~= list.drop_last());
    } else {
        assert(after.drop_last() =~= list.drop_last().update(n, new));
        lemma_update(list.drop_last(), n, new, folder);
    }
}

/// A folder that is put into a list where it is missing leaves what is said of
/// the others.
proof fn lemma_insert(list: Seq<(String, bool)>, n: int, new: (String, bool), folder: Seq<char>)
    requires
        0 <= n <= list.len(),
        folder != new.0@,
    ensures
        said_of(list.insert(n, new), folder) == said_of(list, folder),
    decreases list.len(),
{
    let after = list.insert(n, new);
    if n == list.len() {
        assert(after.drop_last() =~= list);
    } else {
        assert(after.drop_last() =~= list.drop_last().insert(n, new));
        assert(after.last() == list.last());
        lemma_insert(list.drop_last(), n, new, folder);
    }
}

/// Folders come in the order of strings, each once.
pub open spec fn folders_sorted(list: Seq<(String, bool)>) -> bool {
    forall|i: int, j: int|
        0 <= i < j < list.len() ==> comes_before((#[trigger] list[i]).0@, (#[trigger] list[j]).0@)
}

/// What is said of a folder stands in the list.
proof fn lemma_said_where(list: Seq<(String, bool)>, folder: Seq<char>) -> (k: int)
    requires
        said_of(list, folder) is Some,
    ensures
        0 <= k < list.len(),
        list[k].0@ == folder,
    decreases list.len(),
{
    if said_of(list.drop_last(), folder) is Some {
        lemma_said_where(list.drop_last(), folder)
    } else {
        list.len() - 1
    }
}

/// In a sorted list nothing but the last entry speaks of the last folder.
proof fn lemma_last_once(list: Seq<(String, bool)>)
    requires
        folders_sorted(list),
        list.len() > 0,
    ensures
        said_of(list.drop_last(), list.last().0@) is None,
        said_of(list, list.last().0@) == Some(list.last().1),
        folders_sorted(list.drop_last()),
{
    let before = list.drop_last();
    let last = list.last().0@;
    assert forall|k: int| 0 <= k < before.len() implies (#[trigger] before[k]).0@ != last by {
        assert(comes_before(list[k].0@, list[list.len() - 1].0@));
        lemma_string_order(last, last, last);
    }
    lemma_not_said(before, last);
    assert forall|i: int, j: int| 0 <= i < j < before.len() implies comes_before(
        (#[trigger] before[i]).0@,
        (#[trigger] before[j]).0@,
    ) by {
        assert(before[i] == list[i] && before[j] == list[j]);
    }
}

/// Two sorted lists that say the same of every folder have the same entries.
pub proof fn law_sorted_lists_agree(a: Seq<(String, bool)>, b: Seq<(String, bool)>)
    requires
        folders_sorted(a),
        folders_sorted(b),
        forall|folder: Seq<char>| #[trigger] said_of(a, folder) == said_of(b, folder),
    ensures
        a.len() == b.len(),
        forall|i: int| 0 <= i < a.len() ==> (#[trigger] a[i]).0@ == b[i].0@ && a[i].1 == b[i].1,
    decreases a.len(),
{
    if a.len() == 0 {
        if b.len() > 0 {
            lemma_last_once(b);
            assert(said_of(a, b.last().0@) is None);
        }
    } else {
        lemma_last_once(a);
        assert(said_of(b, a.last().0@) is Some);
        let k = lemma_said_where(b, a.last().0@);
        lemma_last_once(b);
        assert(said_of(a, b.last().0@) is Some);
        let m = lemma_said_where(a, b.last().0@);
        assert(a.last().0@ == b.last().0@) by {
            lemma_string_order(a.last().0@, b.last().0@, a.last().0@);
            if k < b.len() - 1 && m < a.len() - 1 {
                assert(comes_before(b[k].0@, b[b.len() - 1].0@));
                assert(comes_before(a[m].0@, a[a.len() - 1].0@));
            }
        }
        let c = a.drop_last();
        let d = b.drop_last();
        assert forall|folder: Seq<char>| #[trigger] said_of(c, folder) == said_of(d, folder) by {
            assert(said_of(a, folder) == said_of(b, folder));
        }
        law_sorted_lists_agree(c, d);
        assert forall|i: int| 0 <= i < a.len() implies (#[trigger] a[i]).0@ == b[i].0@ && a[i].1
            == b[i].1 by {
            if i < c.len() {
                assert(c[i] == a[i] && d[i] == b[i]);
            }
        }
    }
}

impl Default for SidebarPrefs {
    fn default() -> (r: Self)
        ensures
            !r.sidebar_hidden,
            r.sort_key == Some(SortKey::Severity),
            r.sparkline_collapsed@.len() == 0,
    {
        SidebarPrefs {
            sidebar_hidden: false,
            sort_key: Some(SortKey::Severity),
            sparkline_collapsed: Vec::new(),
        }
    }
}

impl SidebarPrefs {
    /// Where a folder stands in the list.
    fn place_of(&self, folder: &str) -> (r: Option<usize>)
        ensures
            match r {
                Some(n) => {
                    &&& n < self.sparkline_collapsed@.len()
                    &&& self.sparkline_collapsed@[n as int].0@ == folder@
                    &&& forall|k: int|
                        0 <= k < n ==> (#[trigger] self.sparkline_collapsed@[k]).0@ != folder@
                },
                None => forall|k: int|
                    0 <= k < self.sparkline_collapsed@.len() ==> (
                    #[trigger] self.sparkline_collapsed@[k]).0@ != folder@,
            },
    {
        let mut i: usize = 0;
        while i < self.sparkline_collapsed.len()
            invariant
                i <= self.sparkline_collapsed.len(),
                forall|k: int|
                    0 <= k < i ==> (#[trigger] self.sparkline_collapsed@[k]).0@ != folder@,
            decreases self.sparkline_collapsed.len() - i,
        {
            if same_text(self.sparkline_collapsed[i].0.as_str(), folder) {
                return Some(i);
            }
            i += 1;
        }
        None
    }

    /// Where a folder belongs that is not in the list: before the first folder
    /// that comes after it.
    fn place_for(&self, folder: &str) -> (r: usize)
        ensures
            r <= self.sparkline_collapsed@.len(),
            r < self.sparkline_collapsed@.len() ==> comes_before(
                folder@,
                self.sparkline_collapsed@[r as int].0@,
            ),
            forall|k: int|
                0 <= k < r ==> !comes_before(
                    folder@,
                    (#[trigger] self.sparkline_collapsed@[k]).0@,
                ),
    {
        let mut i: usize = 0;
        while i < self.sparkline_collapsed.len()
            invariant
                i <= self.sparkline_collapsed.len(),
                forall|k: int|
                    0 <= k < i ==> !comes_before(
                        folder@,
                        (#[trigger] self.sparkline_collapsed@[k]).0@,
                    ),
            decreases self.sparkline_collapsed.len() - i,
        {
            if is_before(folder, self.sparkline_collapsed[i].0.as_str()) {
                return i;
            }
            i += 1;
        }
        i
    }

    /// Whether the sparkline of a folder is collapsed. It is, unless something
    /// else is known.
    pub fn is_sparkline_collapsed(&self, folder: &str) -> (r: bool)
        ensures
            r == match said_of(self.sparkline_collapsed@, folder@) {
                Some(collapsed) => collapsed,
                None => true,
            },
    {
        match self.place_of(folder) {
            Some(n) => {
                proof {
                    lemma_said_of(self.sparkline_collapsed@, folder@, n as int);
                }
                self.sparkline_collapsed[n].1
            },
            None => {
                proof {
                    lemma_not_said(self.sparkline_collapsed@, folder@);
                }
                true
            },
        }
    }

    /// Remembers whether the sparkline of a folder is collapsed.
    pub fn set_sparkline_collapsed(&mut self, folder: &str, collapsed: bool)
        ensures
            said_of(final(self).sparkline_collapsed@, folder@) == Some(collapsed),
            forall|other: Seq<char>|
                other != folder@ ==> #[trigger] said_of(final(self).sparkline_collapsed@, other)
                    == said_of(old(self).sparkline_collapsed@, other),
            folders_sorted(old(self).sparkline_collapsed@) ==> folders_sorted(
                final(self).sparkline_collapsed@,
            ),
            final(self).sidebar_hidden == old(self).sidebar_hidden,
            final(self).sort_key == old(self).sort_key,
    {
        let ghost before = self.sparkline_collapsed@;
        match self.place_of(folder) {
            Some(n) => {
                let entry: (String, bool) = (folder.to_owned(), collapsed);
                self.sparkline_collapsed.set(n, entry);
                proof {
                    lemma_said_of(self.sparkline_collapsed@, folder@, n as int);
                    assert forall|other: Seq<char>| other != folder@ implies #[trigger] said_of(
                        self.sparkline_collapsed@,
                        other,
                    ) == said_of(before, other) by {
                        lemma_update(before, n as int, entry, other);
                    }
                }
            },
            None => {
                let n: usize = self.place_for(folder);
                let entry: (String, bool) = (folder.to_owned(), collapsed);
                self.sparkline_collapsed.insert(n, entry);
                proof {
                    lemma_said_of(self.sparkline_collapsed@, folder@, n as int);
                    assert forall|other: Seq<char>| other != folder@ implies #[trigger] said_of(
                        self.sparkline_collapsed@,
                        other,
                    ) == said_of(before, other) by {
                        lemma_insert(before, n as int, entry, other);
                    }
                    if folders_sorted(before) {
                        lemma_insert_sorted(before, n as int, entry);
                    }
                }
            },
        }
    }

    /// Completes what was read from a file: one from before there was a choice
    /// keeps the order that it had.
    pub fn upgrade(&mut self)
        ensures
            final(self).sort_key == match old(self).sort_key {
                Some(key) => Some(key),
                None => Some(SortKey::Impact),
            },
            final(self).sidebar_hidden == old(self).sidebar_hidden,
            final(self).sparkline_collapsed == old(self).sparkline_collapsed,
    {
        if self.sort_key.is_none() {
            self.sort_key = Some(SortKey::Impact);
        }
    }
}

/// A folder that is put where it belongs leaves a sorted list sorted.
proof fn lemma_insert_sorted(list: Seq<(String, bool)>, n: int, new: (String, bool))
    requires
        folders_sorted(list),
        0 <= n <= list.len(),
        n < list.len() ==> comes_before(new.0@, list[n].0@),
        forall|k: int| 0 <= k < n ==> !comes_before(new.0@, (#[trigger] list[k]).0@),
        forall|k: int| 0 <= k < list.len() ==> (#[trigger] list[k]).0@ != new.0@,
    ensures
        folders_sorted(list.insert(n, new)),
{
    let next = list.insert(n, new);
    assert forall|i: int, j: int| 0 <= i < j < next.len() implies comes_before(
        (#[trigger] next[i]).0@,
        (#[trigger] next[j]).0@,
    ) by {
        let a = if i < n {
            i
        } else {
            i - 1
        };
        let b = if j < n {
            j
        } else {
            j - 1
        };
        if i != n && j != n {
            assert(next[i] == list[a] && next[j] == list[b]);
        } else if j == n {
            assert(next[i] == list[i]);
            lemma_string_order(list[i].0@, new.0@, new.0@);
        } else {
            assert(next[j] == list[b]);
            if b != n {
                assert(comes_before(list[n].0@, list[b].0@));
                lemma_string_order(new.0@, list[n].0@, list[b].0@);
            }
        }
    }
}

/// The file that holds what the sidebar remembers, from `XDG_CONFIG_HOME` and
/// `HOME`.
pub fn sidebar_file_path(xdg: Option<&str>, home: Option<&str>) -> (r: Option<String>)
    ensures
        match (r, config_dir_of(opt_text(xdg), opt_text(home))) {
            (Some(path), Some(dir)) => path@ == joined(dir, "sidebar.json"@),
            (None, None) => true,
            _ => false,
        },
{
    match config_dir(xdg, home) {
        Some(dir) => Some(join(dir.as_str(), "sidebar.json")),
        None => None,
    }
}

/// What is said of a folder is what its first entry says, and nothing where it has
/// none.
pub proof fn law_first_entry_counts(list: Seq<(String, bool)>, folder: Seq<char>, n: int)
    requires
        0 <= n <= list.len(),
        forall|k: int| 0 <= k < n ==> (#[trigger] list[k]).0@ != folder,
        n < list.len() ==> list[n].0@ == folder,
    ensures
        said_of(list, folder) == if n < list.len() {
            Some(list[n].1)
        } else {
            None
        },
{
    if n < list.len() {
        lemma_said_of(list, folder, n);
    } else {
        lemma_not_said(list, folder);
    }
}

} // verus!
