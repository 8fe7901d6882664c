//! The list of projects that were opened last, newest first.
use crate::paths::{
    goes_through, is_rooted, join, joined, rest_after, same_path, same_way, steps, strip_prefix,
    take_apart, Parts,
};
use crate::toast::lemma_filter_step;
use vstd::prelude::*;
use vstd::string::*;

verus! {

/// How many projects the list holds at most.
pub const MAX_RECENTS: usize = 5;

/// A project that was opened.
#[derive(Debug, Clone)]
pub struct RecentProject {
    /// Its folder.
    pub path: String,
    /// When it was opened, in seconds since 1970.
    pub opened_at: i64,
}

impl RecentProject {
    /// Whether the project is gone: its path leads to no folder.
    pub fn is_stale(&self, is_dir: bool) -> (r: bool)
        ensures
            r == !is_dir,
    {
        !is_dir
    }

    /// The short form of the path that the menu shows.
    pub fn menu_label(&self, home: Option<&str>) -> (r: String)
        ensures
            r@ == menu_text(
                self.path@,
                match home {
                    Some(h) => Some(h@),
                    None => None,
                },
            ),
    {
        menu_label_for(self.path.as_str(), home)
    }
}

/// The projects that were opened last, newest first.
#[derive(Debug, Clone)]
pub struct RecentProjects {
    /// The projects.
    pub entries: Vec<RecentProject>,
}

/// The entries whose paths lead elsewhere than `path`.
pub open spec fn without(entries: Seq<RecentProject>, path: Seq<char>) -> Seq<RecentProject> {
    entries.filter(|e: RecentProject| !same_way(e.path@, path))
}

/// No two entries lead to the same place, and there are not too many.
pub open spec fn is_tidy(entries: Seq<RecentProject>) -> bool {
    &&& entries.len() <= MAX_RECENTS
    &&& forall|i: int, j: int|
        0 <= i < j < entries.len() ==> !same_way(
            (#[trigger] entries[i]).path@,
            (#[trigger] entries[j]).path@,
        )
}

/// The first entries, as many as the list may hold.
pub open spec fn capped(entries: Seq<RecentProject>) -> Seq<RecentProject> {
    if entries.len() > MAX_RECENTS {
        entries.take(MAX_RECENTS as int)
    } else {
        entries
    }
}

/// `new` is the list `old` after `path` was opened at `now`.
pub open spec fn is_pushed(
    old: Seq<RecentProject>,
    path: Seq<char>,
    now: i64,
    new: Seq<RecentProject>,
) -> bool {
    &&& new.len() > 0
    &&& new[0].path@ == path
    &&& new[0].opened_at == now
    &&& new == capped(seq![new[0]] + without(old, path))
}

impl RecentProjects {
    /// A list without projects.
    pub fn empty() -> (r: Self)
        ensures
            r.entries@.len() == 0,
    {
        RecentProjects { entries: Vec::new() }
    }

    /// Puts a project in front. An earlier entry for it goes, and so do the
    /// oldest where there are too many.
    pub fn push(&mut self, path: &str, now: i64)
        ensures
            is_pushed(old(self).entries@, path@, now, final(self).entries@),
    {
        self.remove(path);
        let ghost kept = self.entries@;
        let entry: RecentProject = RecentProject { path: path.to_owned(), opened_at: now };
        self.entries.insert(0, entry);
        assert(self.entries@ =~= seq![entry] + kept);
        self.clamp();
    }

    /// Takes a project out.
    pub fn remove(&mut self, path: &str)
        ensures
            final(self).entries@ == without(old(self).entries@, path@),
    {
        let ghost all = self.entries@;
        let ghost keep = |e: RecentProject| !same_way(e.path@, path@);
        let ghost mut done: int = 0;
        let mut i: usize = 0;
        proof {
            reveal(Seq::filter);
            assert(self.entries@ =~= all.take(0).filter(keep) + all.skip(0));
        }
        while i < self.entries.len()
            invariant
                0 <= done <= all.len(),
                keep == (|e: RecentProject| !same_way(e.path@, path@)),
                i == all.take(done).filter(keep).len(),
                self.entries@ == all.take(done).filter(keep) + all.skip(done),
            decreases self.entries.len() - i,
        {
            proof {
                assert(all.skip(done).len() == all.len() - done);
                lemma_filter_step(all, keep, done);
                assert(self.entries@[i as int] == all[done]);
            }
            if same_path(self.entries[i].path.as_str(), path) {
                let _ = self.entries.remove(i);
            } else {
                i += 1;
            }
            proof {
                assert(self.entries@ =~= all.take(done + 1).filter(keep) + all.skip(done + 1));
                done = done + 1;
            }
        }
        proof {
            assert(all.skip(done).len() == all.len() - done);
            assert(all.take(done) =~= all);
            assert(self.entries@ =~= all.filter(keep));
        }
    }

    /// Empties the list.
    pub fn clear(&mut self)
        ensures
            final(self).entries@.len() == 0,
    {
        self.entries.clear();
    }

    /// Drops what a list read from a file holds beyond the limit.
    pub fn clamp(&mut self)
        ensures
            final(self).entries@ == capped(old(self).entries@),
    {
        if self.entries.len() > MAX_RECENTS {
            self.entries.truncate(MAX_RECENTS);
            assert(self.entries@ =~= old(self).entries@.take(MAX_RECENTS as int));
        }
    }
}

/// What is left in place of an entry is an entry that was there.
proof fn lemma_without(entries: Seq<RecentProject>, path: Seq<char>)
    requires
        is_tidy(entries),
    ensures
        without(entries, path).len() <= entries.len(),
        forall|i: int|
            0 <= i < without(entries, path).len() ==> entries.contains(
                #[trigger] without(entries, path)[i],
            ),
        forall|i: int|
            0 <= i < without(entries, path).len() ==> !same_way(
                (#[trigger] without(entries, path)[i]).path@,
                path,
            ),
        is_tidy(without(entries, path)),
    decreases entries.len(),
{
    let keep = |e: RecentProject| !same_way(e.path@, path);
    reveal(Seq::filter);
    if entries.len() > 0 {
        let before = entries.drop_last();
        lemma_without(before, path);
        assert forall|i: int| 0 <= i < without(before, path).len() implies entries.contains(
            #[trigger] without(before, path)[i],
        ) by {
            let k = before.index_of(without(before, path)[i]);
            assert(before[k] == entries[k]);
        }
        assert forall|i: int| 0 <= i < without(before, path).len() implies !same_way(
            (#[trigger] without(before, path)[i]).path@,
            entries.last().path@,
        ) by {
            let k = before.index_of(without(before, path)[i]);
            assert(before[k] == entries[k]);
            assert(entries.last() == entries[entries.len() - 1]);
        }
        if keep(entries.last()) {
            assert(entries.contains(entries[entries.len() - 1]));
        }
    }
}

/// Opening a project leaves a tidy list tidy: the project comes first, no other
/// entry leads to it, and the list keeps to its limit.
pub proof fn law_push_keeps_tidy(
    old: Seq<RecentProject>,
    path: Seq<char>,
    now: i64,
    new: Seq<RecentProject>,
)
    requires
        is_tidy(old),
        is_pushed(old, path, now, new),
    ensures
        is_tidy(new),
        new[0].path@ == path,
        forall|i: int| 0 < i < new.len() ==> !same_way((#[trigger] new[i]).path@, path),
        forall|i: int| 0 < i < new.len() ==> old.contains(#[trigger] new[i]),
{
    lemma_without(old, path);
    let rest = without(old, path);
    let whole = seq![new[0]] + rest;
    assert forall|i: int| 0 < i < new.len() implies new[i] == rest[i - 1] by {
        assert(whole[i] == rest[i - 1]);
    }
    assert forall|i: int, j: int| 0 <= i < j < new.len() implies !same_way(
        (#[trigger] new[i]).path@,
        (#[trigger] new[j]).path@,
    ) by {
        if i == 0 {
            assert(new[j] == rest[j - 1]);
        } else {
            assert(new[i] == rest[i - 1] && new[j] == rest[j - 1]);
        }
    }
}

/// Taking a project out leaves a tidy list tidy and without the project.
pub proof fn law_remove_keeps_tidy(old: Seq<RecentProject>, path: Seq<char>)
    requires
        is_tidy(old),
    ensures
        is_tidy(without(old, path)),
        forall|i: int|
            0 <= i < without(old, path).len() ==> !same_way(
                (#[trigger] without(old, path)[i]).path@,
                path,
            ),
{
    lemma_without(old, path);
}

/// The name of the file that a file is written to before it takes its place.
pub fn tmp_path_for(path: &str) -> (r: String)
    ensures
        r@ == path@ + ".tmp"@,
{
    let mut out: String = path.to_owned();
    out.append(".tmp");
    out
}

/// The folder for settings: `dedup` below the configuration folder if there is
/// one, else below `.config` in the home folder.
pub open spec fn config_dir_of(xdg: Option<Seq<char>>, home: Option<Seq<char>>) -> Option<
    Seq<char>,
> {
    match (xdg, home) {
        (Some(x), _) if x.len() > 0 => Some(joined(x, "dedup"@)),
        (_, Some(h)) => Some(joined(joined(h, ".config"@), "dedup"@)),
        _ => None,
    }
}

/// The characters of an optional text.
pub open spec fn opt_text(t: Option<&str>) -> Option<Seq<char>> {
    match t {
        Some(s) => Some(s@),
        None => None,
    }
}

/// The folder for settings, from `XDG_CONFIG_HOME` and `HOME`.
pub fn config_dir(xdg: Option<&str>, home: Option<&str>) -> (r: Option<String>)
    ensures
        match r {
            Some(dir) => config_dir_of(opt_text(xdg), opt_text(home)) == Some(dir@),
            None => config_dir_of(opt_text(xdg), opt_text(home)) is None,
        },
{
    if let Some(x) = xdg {
        if !x.is_empty() {
            return Some(join(x, "dedup"));
        }
    }
    match home {
        Some(h) => {
            let below: String = join(h, ".config");
            Some(join(below.as_str(), "dedup"))
        },
        None => None,
    }
}

/// The file that holds the list, from `XDG_CONFIG_HOME` and `HOME`.
pub fn recent_file_path(xdg: Option<&str>, home: Option<&str>) -> (r: Option<String>)
    ensures
        match (r, config_dir_of(opt_text(xdg), opt_text(home))) {
            (Some(path), Some(dir)) => path@ == joined(dir, "recent.json"@),
            (None, None) => true,
            _ => false,
        },
{
    match config_dir(xdg, home) {
        Some(dir) => Some(join(dir.as_str(), "recent.json")),
        None => None,
    }
}

/// The time of a clock that shows `since_epoch` seconds since 1970. A time that is
/// too late, or before 1970, counts as the largest one.
pub fn clamp_unix_secs(since_epoch: Option<u64>) -> (r: i64)
    ensures
        match since_epoch {
            Some(secs) => r == if secs > i64::MAX {
                i64::MAX as int
            } else {
                secs as int
            },
            None => r == i64::MAX,
        },
{
    match since_epoch {
        Some(secs) => if secs > 0x7fff_ffff_ffff_ffff {
            i64::MAX
        } else {
            secs as i64
        },
        None => i64::MAX,
    }
}

/// What the menu shows for a path: below the home folder, the rest after `~`;
/// with more than three steps, counting the root, the last two after an
/// ellipsis; else the path.
pub open spec fn menu_text(path: Seq<char>, home: Option<Seq<char>>) -> Seq<char> {
    let s = steps(path);
    let depth = s.len() + if is_rooted(path) {
        1int
    } else {
        0int
    };
    match home {
        Some(h) if goes_through(path, h) => if rest_after(path, h).len() == 0 {
            "~"@
        } else {
            "~/"@ + rest_after(path, h)
        },
        _ => if depth > 3 {
            "\u{2026}/"@ + s[s.len() - 2] + "/"@ + s.last()
        } else {
            path
        },
    }
}

/// What the menu shows for a path.
pub fn menu_label_for(path: &str, home: Option<&str>) -> (r: String)
    ensures
        r@ == menu_text(path@, opt_text(home)),
{
    if let Some(h) = home {
        if let Some(rest) = strip_prefix(path, h) {
            if rest.as_str().is_empty() {
                return "~".to_owned();
            }
            let mut out: String = "~/".to_owned();
            out.append(rest.as_str());
            return out;
        }
    }
    let parts: Parts = take_apart(path);
    proof {
        crate::paths::lemma_parts(path@, parts);
    }
    let n: usize = parts.at.len();
    if n > 3 || (n == 3 && parts.rooted) {
        let mut out: String = "\u{2026}/".to_owned();
        let ghost s = steps(path@);
        assert(s[n - 2] == parts.pieces@[parts.at@[n - 2] as int]@);
        assert(s[n - 1] == parts.pieces@[parts.at@[n - 1] as int]@);
        out.append(parts.pieces[parts.at[n - 2]].as_str());
        out.append("/");
        out.append(parts.pieces[parts.at[n - 1]].as_str());
        return out;
    }
    path.to_owned()
}

/// A project that is opened comes first, and behind it come the others, all of
/// them and in their order, as far as there is room for five.
pub proof fn law_push_keeps_the_others(
    old: Seq<RecentProject>,
    path: Seq<char>,
    now: i64,
    new: Seq<RecentProject>,
)
    requires
        is_pushed(old, path, now, new),
    ensures
        ({
            let others = old.filter(|e: RecentProject| !same_way(e.path@, path));
            &&& new.len() == if others.len() < 5 {
                others.len() + 1
            } else {
                5
            }
            &&& new[0].path@ == path
            &&& new[0].opened_at == now
            &&& forall|i: int| 0 < i < new.len() ==> #[trigger] new[i] == others[i - 1]
        }),
{
    let others = old.filter(|e: RecentProject| !same_way(e.path@, path));
    let whole = seq![new[0]] + others;
    assert forall|i: int| 0 < i < new.len() implies #[trigger] new[i] == others[i - 1] by {
        assert(whole[i] == others[i - 1]);
    }
}

/// Taking a project out leaves every other entry, in its place among the others.
pub proof fn law_remove_keeps_the_others(old: Seq<RecentProject>, path: Seq<char>)
    ensures
        without(old, path) == old.filter(|e: RecentProject| !same_way(e.path@, path)),
        forall|e: RecentProject|
            #![trigger without(old, path).contains(e)]
            without(old, path).contains(e) <==> old.contains(e) && !same_way(e.path@, path),
{
    let keep = |e: RecentProject| !same_way(e.path@, path);
    assert forall|e: RecentProject|
        #![trigger without(old, path).contains(e)]
        without(old, path).contains(e) <==> old.contains(e) && !same_way(e.path@, path) by {
        if without(old, path).contains(e) {
            let k = without(old, path).index_of(e);
            old.lemma_filter_contains_rev(keep, e);
            old.lemma_filter_pred(keep, k);
            assert(keep(without(old, path)[k]));
        }
        if old.contains(e) && !same_way(e.path@, path) {
            let k = old.index_of(e);
            old.lemma_filter_contains(keep, k);
        }
    }
}

/// A list that is too long keeps its first five entries.
pub proof fn law_capped(entries: Seq<RecentProject>)
    ensures
        entries.len() <= 5 ==> capped(entries) == entries,
        entries.len() > 5 ==> capped(entries) == entries.subrange(0, 5),
{
}

/// Settings lie below the configuration folder, unless that is not set or empty,
/// and else below the home folder.
pub proof fn law_settings_folder(xdg: Seq<char>, home: Seq<char>)
    ensures
        xdg.len() > 0 ==> config_dir_of(Some(xdg), Some(home)) == Some(joined(xdg, "dedup"@)),
        xdg.len() > 0 ==> config_dir_of(Some(xdg), None) == Some(joined(xdg, "dedup"@)),
        config_dir_of(Some(Seq::empty()), Some(home)) == config_dir_of(None, Some(home)),
        config_dir_of(None, Some(home)) == Some(joined(joined(home, ".config"@), "dedup"@)),
        config_dir_of(None, None) is None,
        config_dir_of(Some(Seq::empty()), None) is None,
{
}

/// A menu shows the home folder as a tilde and what is below it behind one; of
/// any other path with more than three steps it shows the last two behind an
/// ellipsis, and a shorter one as it stands.
pub proof fn law_menu_texts(path: Seq<char>, home: Option<Seq<char>>)
    ensures
        ({
            let below_home = home matches Some(h) && goes_through(path, h);
            let n = steps(path).len() as int;
            let depth = if is_rooted(path) {
                n + 1
            } else {
                n
            };
            &&& below_home && rest_after(path, home->0).len() == 0 ==> menu_text(path, home) == "~"@
            &&& below_home && rest_after(path, home->0).len() > 0 ==> menu_text(path, home) == "~/"@
                + rest_after(path, home->0)
            &&& !below_home && depth > 3 ==> menu_text(path, home) == "\u{2026}/"@ + steps(path)[n
                - 2] + "/"@ + steps(path)[n - 1]
            &&& !below_home && depth <= 3 ==> menu_text(path, home) == path
        }),
{
}

} // verus!
