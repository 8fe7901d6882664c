//! What the keys and buttons of the window do to groups and occurrences.
use crate::app_state::{
    group_from, group_models, groups_shown, law_dismissing_keeps_dismissals,
    law_filtering_keeps_dismissals, occurrence_models, occurrences_shown, visible_in,
    with_all, AppState, FolderLoadResult, GroupModel, GroupView, OccurrenceDismissal,
    OccurrenceModel, OccurrenceView, Pane, SuppressionView, Tier,
};
use crate::detail_rows::diff::{line_for_pane, pane_line};
use crate::paths::{is_rooted, same_path, same_way, steps};
use crate::project_view::{copy_tier, of_tier, ProjectView};
use crate::text::{dec, push_dec};
use crate::toast::lemma_filter_step;
use vstd::prelude::*;
use vstd::string::*;

verus! {

// ---------------------------------------------------------------------------
// The cursor in the sidebar
// ---------------------------------------------------------------------------
/// The first place from `i` on at which a group with a number stands.
pub open spec fn place_from(found: Seq<GroupModel>, id: i64, i: int) -> Option<int>
    decreases found.len() - i,
{
    if i < 0 || i >= found.len() {
        None
    } else if found[i].id == id {
        Some(i)
    } else {
        place_from(found, id, i + 1)
    }
}

/// The place of the selected group among those that are shown.
pub open spec fn cursor_place(found: Seq<GroupModel>, selected: Option<i64>) -> Option<int> {
    match selected {
        Some(id) => place_from(found, id, 0),
        None => None,
    }
}

/// The group under the cursor when it has gone one row down. It stays on the
/// last row, and starts on the first one.
pub open spec fn below(found: Seq<GroupModel>, selected: Option<i64>) -> Option<i64> {
    if found.len() == 0 {
        selected
    } else {
        match cursor_place(found, selected) {
            Some(n) => if n + 1 < found.len() {
                Some(found[n + 1].id)
            } else {
                Some(found[n].id)
            },
            None => Some(found[0].id),
        }
    }
}

/// The group under the cursor when it has gone one row up. It stays on the
/// first row, and starts there.
pub open spec fn above(found: Seq<GroupModel>, selected: Option<i64>) -> Option<i64> {
    if found.len() == 0 {
        selected
    } else {
        match cursor_place(found, selected) {
            Some(n) => if n > 0 {
                Some(found[n - 1].id)
            } else {
                Some(found[n].id)
            },
            None => Some(found[0].id),
        }
    }
}

/// The place of the selected group in a list.
fn find_cursor(list: &Vec<GroupView>, selected: Option<i64>) -> (r: Option<usize>)
    ensures
        match (r, cursor_place(group_models(list@), selected)) {
            (Some(n), Some(m)) => n == m && n < list@.len(),
            (None, None) => true,
            _ => false,
        },
{
    match selected {
        Some(id) => {
            let ghost found = group_models(list@);
            let mut i: usize = 0;
            while i < list.len()
                invariant
                    i <= list.len(),
                    found == group_models(list@),
                    selected == Some(id),
                    place_from(found, id, 0) == place_from(found, id, i as int),
                decreases list.len() - i,
            {
                assert(found[i as int] == list@[i as int]@);
                if list[i].id == id {
                    return Some(i);
                }
                i += 1;
            }
            None
        },
        None => None,
    }
}

impl AppState {
    /// Moves the cursor of the sidebar one row down.
    pub fn next_group(&mut self)
        ensures
            *final(self) == (AppState {
                selected_group: below(groups_shown(*old(self)), old(self).selected_group),
                ..*old(self)
            }),
    {
        let list: Vec<GroupView> = self.visible_groups();
        assert(group_models(list@).len() == list@.len());
        if list.len() == 0 {
            return;
        }
        assert(forall|k: int|
            0 <= k < list@.len() ==> (#[trigger] group_models(list@)[k]).id == list@[k].id);
        let n: usize = list.len();
        match find_cursor(&list, self.selected_group) {
            Some(at) => {
                self.selected_group = if at + 1 < n {
                    Some(list[at + 1].id)
                } else {
                    Some(list[at].id)
                };
            },
            None => {
                self.selected_group = Some(list[0].id);
            },
        }
    }

    /// Moves the cursor of the sidebar one row up.
    pub fn prev_group(&mut self)
        ensures
            *final(self) == (AppState {
                selected_group: above(groups_shown(*old(self)), old(self).selected_group),
                ..*old(self)
            }),
    {
        let list: Vec<GroupView> = self.visible_groups();
        assert(group_models(list@).len() == list@.len());
        if list.len() == 0 {
            return;
        }
        assert(forall|k: int|
            0 <= k < list@.len() ==> (#[trigger] group_models(list@)[k]).id == list@[k].id);
        match find_cursor(&list, self.selected_group) {
            Some(at) => {
                self.selected_group = if at > 0 {
                    Some(list[at - 1].id)
                } else {
                    Some(list[at].id)
                };
            },
            None => {
                self.selected_group = Some(list[0].id);
            },
        }
    }

    /// Moves the focus from the sidebar to the detail pane.
    pub fn activate_group(&mut self)
        ensures
            *final(self) == (AppState { focused_pane: Pane::Detail, ..*old(self) }),
    {
        self.focused_pane = Pane::Detail;
    }
}

// ---------------------------------------------------------------------------
// Dismissing and restoring
// ---------------------------------------------------------------------------
/// Holds of the groups with another number.
pub open spec fn other_group(id: i64) -> spec_fn(GroupView) -> bool {
    |g: GroupView| g.id != id
}

/// Holds of the dismissed groups with another hash.
pub open spec fn other_hash(hash: u64) -> spec_fn(SuppressionView) -> bool {
    |d: SuppressionView| d.hash != hash
}

/// The first place from `i` on at which a dismissed group with a hash stands.
pub open spec fn hash_from(list: Seq<SuppressionView>, hash: u64, i: int) -> Option<int>
    decreases list.len() - i,
{
    if i < 0 || i >= list.len() {
        None
    } else if list[i].hash == hash {
        Some(i)
    } else {
        hash_from(list, hash, i + 1)
    }
}

/// Holds of what was dismissed under another hash or with another path.
pub open spec fn other_dismissal(hash: u64, path: Seq<char>) -> spec_fn((u64, String)) -> bool {
    |e: (u64, String)| !(e.0 == hash && same_way(e.1@, path))
}

/// Holds of what was dismissed under another hash.
pub open spec fn under_other_hash(hash: u64) -> spec_fn((u64, String)) -> bool {
    |e: (u64, String)| e.0 != hash
}

/// Takes out of a list what a test does not hold of, one item at a time: what
/// is left of the first `j` items, then the others.
pub open spec fn thinned<T>(all: Seq<T>, keep: spec_fn(T) -> bool, j: int) -> Seq<T> {
    all.take(j).filter(keep) + all.skip(j)
}

/// One item further.
proof fn lemma_thinned<T>(all: Seq<T>, keep: spec_fn(T) -> bool, j: int)
    requires
        0 <= j < all.len(),
    ensures
        ({
            let n = all.take(j).filter(keep).len() as int;
            let before = thinned(all, keep, j);
            let after = thinned(all, keep, j + 1);
            &&& n < before.len()
            &&& before[n] == all[j]
            &&& keep(all[j]) ==> after == before && all.take(j + 1).filter(keep).len() == n + 1
            &&& !keep(all[j]) ==> after == before.remove(n) && all.take(j + 1).filter(keep).len()
                == n
        }),
{
    lemma_filter_step(all, keep, j);
    let n = all.take(j).filter(keep).len() as int;
    let before = thinned(all, keep, j);
    let after = thinned(all, keep, j + 1);
    assert(all.skip(j)[0] == all[j]);
    if keep(all[j]) {
        assert(after =~= before);
    } else {
        assert(after =~= before.remove(n));
    }
}

impl AppState {
    /// Takes a group out of the list, if what was found in it is known by a hash,
    /// and returns the hash and the number. Where the group was selected, none
    /// is.
    pub fn dismiss_group(&mut self, group_id: i64) -> (r: Option<(u64, i64)>)
        ensures
            match group_from(old(self).groups@, group_id, 0) {
                Some(GroupModel { group_hash: Some(hash), .. }) => {
                    &&& r == Some((hash, group_id))
                    &&& final(self).groups@ == old(self).groups@.filter(other_group(group_id))
                    &&& *final(self) == (AppState {
                        groups: final(self).groups,
                        selected_group: if old(self).selected_group == Some(group_id) {
                            None
                        } else {
                            old(self).selected_group
                        },
                        ..*old(self)
                    })
                },
                _ => r is None && *final(self) == *old(self),
            },
    {
        let hash: u64 = match self.group_by_id(group_id) {
            Some(g) => match g.group_hash {
                Some(h) => h,
                None => {
                    return None;
                },
            },
            None => {
                return None;
            },
        };
        let ghost all = self.groups@;
        let ghost keep = other_group(group_id);
        let mut i: usize = 0;
        let ghost mut j: int = 0;
        proof {
            reveal(Seq::filter);
            assert(all.take(0).filter(keep) =~= Seq::empty());
            assert(thinned(all, keep, 0) =~= all);
        }
        while i < self.groups.len()
            invariant
                0 <= j <= all.len(),
                keep == other_group(group_id),
                self.groups@ == thinned(all, keep, j),
                i == all.take(j).filter(keep).len(),
                *self == (AppState { groups: self.groups, ..*old(self) }),
            decreases all.len() - j,
        {
            proof {
                if j == all.len() {
                    assert(all.skip(j) =~= Seq::empty());
                    assert(self.groups@ =~= all.take(j).filter(keep));
                }
                lemma_thinned(all, keep, j);
            }
            if self.groups[i].id == group_id {
                let _ = self.groups.remove(i);
            } else {
                i += 1;
            }
            proof {
                j = j + 1;
            }
        }
        proof {
            if j < all.len() {
                lemma_thinned(all, keep, j);
            }
            assert(all.take(j) =~= all);
            assert(all.skip(j) =~= Seq::empty());
            assert(self.groups@ =~= all.filter(keep));
        }
        if let Some(selected) = self.selected_group {
            if selected == group_id {
                self.selected_group = None;
            }
        }
        Some((hash, group_id))
    }

    /// Takes the selected group out of the list.
    pub fn dismiss_current_group(&mut self) -> (r: Option<(u64, i64)>)
        ensures
            match old(self).selected_group {
                Some(id) => match group_from(old(self).groups@, id, 0) {
                    Some(GroupModel { group_hash: Some(hash), .. }) => {
                        &&& r == Some((hash, id))
                        &&& final(self).groups@ == old(self).groups@.filter(other_group(id))
                        &&& *final(self) == (AppState {
                            groups: final(self).groups,
                            selected_group: None,
                            ..*old(self)
                        })
                    },
                    _ => r is None && *final(self) == *old(self),
                },
                None => r is None && *final(self) == *old(self),
            },
    {
        match self.selected_group {
            Some(id) => self.dismiss_group(id),
            None => None,
        }
    }

    /// Takes a group out of the list of dismissed groups, and returns its hash
    /// and the number that it had. The group of that number is selected, and
    /// none of its occurrences stays dismissed.
    pub fn restore_group(&mut self, hash: u64) -> (r: Option<(u64, Option<i64>)>)
        ensures
            match hash_from(old(self).dismissed@, hash, 0) {
                Some(n) => {
                    let last = old(self).dismissed@[n].last_group_id;
                    &&& r == Some((hash, last))
                    &&& final(self).dismissed@ == old(self).dismissed@.filter(other_hash(hash))
                    &&& final(self).session_occurrence_dismissed@ == old(
                        self,
                    ).session_occurrence_dismissed@.filter(under_other_hash(hash))
                    &&& *final(self) == (AppState {
                        dismissed: final(self).dismissed,
                        session_occurrence_dismissed: final(self).session_occurrence_dismissed,
                        selected_group: match last {
                            Some(id) => Some(id),
                            None => old(self).selected_group,
                        },
                        ..*old(self)
                    })
                },
                None => r is None && *final(self) == *old(self),
            },
            old(self).sets_hold() ==> final(self).sets_hold(),
    {
        let ghost all = self.dismissed@;
        let ghost keep = other_hash(hash);
        proof {
            if self.sets_hold() {
                law_filtering_keeps_dismissals(
                    self.session_occurrence_dismissed@,
                    under_other_hash(hash),
                );
            }
        }
        let n: usize = match self.place_of_hash(hash) {
            Some(n) => n,
            None => {
                return None;
            },
        };
        let last: Option<i64> = self.dismissed[n].last_group_id;
        let mut i: usize = 0;
        let ghost mut j: int = 0;
        proof {
            reveal(Seq::filter);
            assert(all.take(0).filter(keep) =~= Seq::empty());
            assert(thinned(all, keep, 0) =~= all);
        }
        while i < self.dismissed.len()
            invariant
                0 <= j <= all.len(),
                keep == other_hash(hash),
                self.dismissed@ == thinned(all, keep, j),
                i == all.take(j).filter(keep).len(),
                *self == (AppState { dismissed: self.dismissed, ..*old(self) }),
            decreases all.len() - j,
        {
            proof {
                if j == all.len() {
                    assert(all.skip(j) =~= Seq::empty());
                    assert(self.dismissed@ =~= all.take(j).filter(keep));
                }
                lemma_thinned(all, keep, j);
            }
            if self.dismissed[i].hash == hash {
                let _ = self.dismissed.remove(i);
            } else {
                i += 1;
            }
            proof {
                j = j + 1;
            }
        }
        proof {
            if j < all.len() {
                lemma_thinned(all, keep, j);
            }
            assert(all.take(j) =~= all);
            assert(all.skip(j) =~= Seq::empty());
            assert(self.dismissed@ =~= all.filter(keep));
        }
        drop_hash(&mut self.session_occurrence_dismissed, hash);
        if last.is_some() {
            self.selected_group = last;
        }
        Some((hash, last))
    }

    /// Where the first dismissed group with a hash stands.
    fn place_of_hash(&self, hash: u64) -> (r: Option<usize>)
        ensures
            match (r, hash_from(self.dismissed@, hash, 0)) {
                (Some(n), Some(m)) => n == m && n < self.dismissed@.len(),
                (None, None) => true,
                _ => false,
            },
    {
        let mut i: usize = 0;
        while i < self.dismissed.len()
            invariant
                i <= self.dismissed.len(),
                hash_from(self.dismissed@, hash, 0) == hash_from(
                    self.dismissed@,
                    hash,
                    i as int,
                ),
            decreases self.dismissed.len() - i,
        {
            if self.dismissed[i].hash == hash {
                return Some(i);
            }
            i += 1;
        }
        None
    }

    /// Dismisses the occurrence at a place among those of a group that are
    /// shown, and returns the hash of the group and the path.
    pub fn dismiss_occurrence(&mut self, group_id: i64, occ_idx: usize) -> (r: Option<
        (u64, String),
    >)
        ensures
            match group_from(old(self).groups@, group_id, 0) {
                Some(g) => {
                    let shown = visible_in(g, old(self).session_occurrence_dismissed@);
                    if g.group_hash is Some && occ_idx < shown.len() {
                        &&& r matches Some((hash, path)) && hash == g.group_hash->0 && path@
                            == shown[occ_idx as int].path
                        &&& *final(self) == (AppState {
                            session_occurrence_dismissed: final(self).session_occurrence_dismissed,
                            ..*old(self)
                        })
                        &&& final(self).session_occurrence_dismissed@.len() == old(
                            self,
                        ).session_occurrence_dismissed@.len() + 1
                        &&& final(self).session_occurrence_dismissed@.drop_last() == old(
                            self,
                        ).session_occurrence_dismissed@
                        &&& final(self).session_occurrence_dismissed@.last().0 == g.group_hash->0
                        &&& final(self).session_occurrence_dismissed@.last().1@
                            == shown[occ_idx as int].path
                    } else {
                        r is None && *final(self) == *old(self)
                    }
                },
                None => r is None && *final(self) == *old(self),
            },
            old(self).sets_hold() ==> final(self).sets_hold(),
    {
        let (hash, shown): (Option<u64>, Vec<OccurrenceView>) = match self.group_by_id(group_id) {
            Some(g) => (g.group_hash, self.visible_occurrences_of(g)),
            None => {
                return None;
            },
        };
        assert(occurrence_models(shown@).len() == shown@.len());
        match hash {
            Some(h) => {
                if occ_idx >= shown.len() {
                    return None;
                }
                assert(occurrence_models(shown@)[occ_idx as int] == shown@[occ_idx as int]@);
                let path: String = shown[occ_idx].path.clone();
                self.session_occurrence_dismissed.push((h, path.clone()));
                proof {
                    let before = old(self).session_occurrence_dismissed@;
                    let now = self.session_occurrence_dismissed@;
                    assert(now.drop_last() =~= before);
                    assert(now =~= before.push(now.last()));
                    if old(self).sets_hold() {
                        law_dismissing_keeps_dismissals(
                            group_from(old(self).groups@, group_id, 0)->0,
                            before,
                            occ_idx as int,
                            now.last(),
                        );
                    }
                }
                Some((h, path))
            },
            None => None,
        }
    }
}

/// Holds of the dismissals of another path.
pub open spec fn other_path(path: Seq<char>) -> spec_fn(OccurrenceDismissal) -> bool {
    |d: OccurrenceDismissal| !same_way(d.path@, path)
}

/// Some dismissal is of a path.
pub open spec fn has_path(list: Seq<OccurrenceDismissal>, path: Seq<char>) -> bool {
    exists|i: int| 0 <= i < list.len() && same_way((#[trigger] list[i]).path@, path)
}

/// A dismissed group without the dismissal of one of its occurrences.
pub open spec fn without_path(d: SuppressionView, new: SuppressionView, path: Seq<char>) -> bool {
    &&& new.occurrence_dismissals@ == d.occurrence_dismissals@.filter(other_path(path))
    &&& new == (SuppressionView { occurrence_dismissals: new.occurrence_dismissals, ..d })
}

impl AppState {
    /// Takes back that an occurrence of a dismissed group was dismissed, and
    /// returns the hash and the path.
    pub fn restore_occurrence(&mut self, hash: u64, path: &str) -> (r: Option<(u64, String)>)
        ensures
            match hash_from(old(self).dismissed@, hash, 0) {
                Some(n) => if has_path(old(self).dismissed@[n].occurrence_dismissals@, path@) {
                    &&& r matches Some((h, p)) && h == hash && p@ == path@
                    &&& without_path(old(self).dismissed@[n], final(self).dismissed@[n], path@)
                    &&& final(self).dismissed@ == old(self).dismissed@.update(
                        n,
                        final(self).dismissed@[n],
                    )
                    &&& final(self).session_occurrence_dismissed@ == old(
                        self,
                    ).session_occurrence_dismissed@.filter(other_dismissal(hash, path@))
                    &&& *final(self) == (AppState {
                        dismissed: final(self).dismissed,
                        session_occurrence_dismissed: final(self).session_occurrence_dismissed,
                        ..*old(self)
                    })
                } else {
                    r is None && *final(self) == *old(self)
                },
                None => r is None && *final(self) == *old(self),
            },
            old(self).sets_hold() ==> final(self).sets_hold(),
    {
        proof {
            if self.sets_hold() {
                law_filtering_keeps_dismissals(
                    self.session_occurrence_dismissed@,
                    other_dismissal(hash, path@),
                );
            }
        }
        let n: usize = match self.place_of_hash(hash) {
            Some(n) => n,
            None => {
                return None;
            },
        };
        if !lists_path(&self.dismissed[n].occurrence_dismissals, path) {
            return None;
        }
        let ghost before = self.dismissed@;
        let mut d: SuppressionView = self.dismissed.remove(n);
        drop_path(&mut d.occurrence_dismissals, path);
        self.dismissed.insert(n, d);
        assert(self.dismissed@ =~= before.update(n as int, self.dismissed@[n as int]));
        drop_dismissal(&mut self.session_occurrence_dismissed, hash, path);
        Some((hash, path.to_owned()))
    }
}

/// Whether some dismissal is of a path.
fn lists_path(list: &Vec<OccurrenceDismissal>, path: &str) -> (r: bool)
    ensures
        r == has_path(list@, path@),
{
    let mut i: usize = 0;
    while i < list.len()
        invariant
            i <= list.len(),
            forall|k: int| 0 <= k < i ==> !same_way((#[trigger] list@[k]).path@, path@),
        decreases list.len() - i,
    {
        if same_path(list[i].path.as_str(), path) {
            assert(same_way(list@[i as int].path@, path@));
            return true;
        }
        i += 1;
    }
    false
}

/// Takes the dismissals of a path out of a list.
fn drop_path(list: &mut Vec<OccurrenceDismissal>, path: &str)
    ensures
        final(list)@ == old(list)@.filter(other_path(path@)),
{
    let ghost all = list@;
    let ghost keep = other_path(path@);
    let mut i: usize = 0;
    let ghost mut j: int = 0;
    proof {
        reveal(Seq::filter);
        assert(all.take(0).filter(keep) =~= Seq::empty());
        assert(thinned(all, keep, 0) =~= all);
    }
    while i < list.len()
        invariant
            0 <= j <= all.len(),
            keep == other_path(path@),
            list@ == thinned(all, keep, j),
            i == all.take(j).filter(keep).len(),
        decreases all.len() - j,
    {
        proof {
            if j == all.len() {
                assert(all.skip(j) =~= Seq::empty());
                assert(list@ =~= all.take(j).filter(keep));
            }
            lemma_thinned(all, keep, j);
        }
        if same_path(list[i].path.as_str(), path) {
            let _ = list.remove(i);
        } else {
            i += 1;
        }
        proof {
            j = j + 1;
        }
    }
    proof {
        if j < all.len() {
            lemma_thinned(all, keep, j);
        }
        assert(all.take(j) =~= all);
        assert(all.skip(j) =~= Seq::empty());
        assert(list@ =~= all.filter(keep));
    }
}

/// Takes what was dismissed under a hash with a path out of a list.
fn drop_dismissal(list: &mut Vec<(u64, String)>, hash: u64, path: &str)
    ensures
        final(list)@ == old(list)@.filter(other_dismissal(hash, path@)),
{
    let ghost all = list@;
    let ghost keep = other_dismissal(hash, path@);
    let mut i: usize = 0;
    let ghost mut j: int = 0;
    proof {
        reveal(Seq::filter);
        assert(all.take(0).filter(keep) =~= Seq::empty());
        assert(thinned(all, keep, 0) =~= all);
    }
    while i < list.len()
        invariant
            0 <= j <= all.len(),
            keep == other_dismissal(hash, path@),
            list@ == thinned(all, keep, j),
            i == all.take(j).filter(keep).len(),
        decreases all.len() - j,
    {
        proof {
            if j == all.len() {
                assert(all.skip(j) =~= Seq::empty());
                assert(list@ =~= all.take(j).filter(keep));
            }
            lemma_thinned(all, keep, j);
        }
        if list[i].0 == hash && same_path(list[i].1.as_str(), path) {
            let _ = list.remove(i);
        } else {
            i += 1;
        }
        proof {
            j = j + 1;
        }
    }
    proof {
        if j < all.len() {
            lemma_thinned(all, keep, j);
        }
        assert(all.take(j) =~= all);
        assert(all.skip(j) =~= Seq::empty());
        assert(list@ =~= all.filter(keep));
    }
}

/// Takes what was dismissed under a hash out of a list.
fn drop_hash(list: &mut Vec<(u64, String)>, hash: u64)
    ensures
        final(list)@ == old(list)@.filter(under_other_hash(hash)),
{
    let ghost all = list@;
    let ghost keep = under_other_hash(hash);
    let mut i: usize = 0;
    let ghost mut j: int = 0;
    proof {
        reveal(Seq::filter);
        assert(all.take(0).filter(keep) =~= Seq::empty());
        assert(thinned(all, keep, 0) =~= all);
    }
    while i < list.len()
        invariant
            0 <= j <= all.len(),
            keep == under_other_hash(hash),
            list@ == thinned(all, keep, j),
            i == all.take(j).filter(keep).len(),
        decreases all.len() - j,
    {
        proof {
            if j == all.len() {
                assert(all.skip(j) =~= Seq::empty());
                assert(list@ =~= all.take(j).filter(keep));
            }
            lemma_thinned(all, keep, j);
        }
        if list[i].0 == hash {
            let _ = list.remove(i);
        } else {
            i += 1;
        }
        proof {
            j = j + 1;
        }
    }
    proof {
        if j < all.len() {
            lemma_thinned(all, keep, j);
        }
        assert(all.take(j) =~= all);
        assert(all.skip(j) =~= Seq::empty());
        assert(list@ =~= all.filter(keep));
    }
}

// ---------------------------------------------------------------------------
// Paths of a group
// ---------------------------------------------------------------------------
/// The places among the first `n` occurrences of a group that are checked.
pub open spec fn checked_places(checked: Seq<(i64, usize)>, id: i64, n: int) -> Seq<int>
    decreases n,
{
    if n <= 0 {
        Seq::empty()
    } else {
        let before = checked_places(checked, id, n - 1);
        if checked.contains((id, (n - 1) as usize)) {
            before.push(n - 1)
        } else {
            before
        }
    }
}

/// The places of the occurrences that an action on a group is for: those that
/// are checked, or all of them where none is.
pub open spec fn target_places(checked: Seq<(i64, usize)>, id: i64, n: int) -> Seq<int> {
    let picked = checked_places(checked, id, n);
    if picked.len() == 0 {
        Seq::new(n as nat, |k: int| k)
    } else {
        picked
    }
}

/// The occurrences that an action on a group is for.
pub open spec fn targets(s: AppState, id: i64) -> Seq<OccurrenceModel> {
    match group_from(s.groups@, id, 0) {
        Some(g) => {
            let shown = visible_in(g, s.session_occurrence_dismissed@);
            let at = target_places(s.selected_occurrence_indices@, id, shown.len() as int);
            Seq::new(at.len(), |k: int| shown[at[k]])
        },
        None => Seq::empty(),
    }
}

/// A checked place lies among the occurrences, and is checked.
proof fn lemma_checked_places(checked: Seq<(i64, usize)>, id: i64, n: int, k: int)
    requires
        0 <= k < checked_places(checked, id, n).len(),
    ensures
        0 <= checked_places(checked, id, n)[k] < n,
        checked.contains((id, checked_places(checked, id, n)[k] as usize)),
    decreases n,
{
    let before = checked_places(checked, id, n - 1);
    if k < before.len() {
        lemma_checked_places(checked, id, n - 1, k);
    }
}

/// An action on a group is for occurrences that are shown, and where one of them
/// is checked, for checked ones alone.
pub proof fn law_targets_are_shown(s: AppState, g: GroupModel, id: i64, k: int)
    requires
        group_from(s.groups@, id, 0) == Some(g),
        0 <= k < targets(s, id).len(),
    ensures
        ({
            let shown = visible_in(g, s.session_occurrence_dismissed@);
            let checked = s.selected_occurrence_indices@;
            exists|i: int|
                0 <= i < shown.len() && targets(s, id)[k] == #[trigger] shown[i] && (checked_places(
                    checked,
                    id,
                    shown.len() as int,
                ).len() > 0 ==> checked.contains((id, i as usize)))
        }),
{
    let shown = visible_in(g, s.session_occurrence_dismissed@);
    let checked = s.selected_occurrence_indices@;
    let n = shown.len() as int;
    let picked = checked_places(checked, id, n);
    if picked.len() > 0 {
        lemma_checked_places(checked, id, n, k);
        assert(targets(s, id)[k] == shown[picked[k]]);
    } else {
        assert(targets(s, id)[k] == shown[k]);
    }
}

/// The texts, with a line feed between each two.
pub open spec fn lined_up(list: Seq<Seq<char>>) -> Seq<char>
    decreases list.len(),
{
    if list.len() == 0 {
        Seq::empty()
    } else if list.len() == 1 {
        list[0]
    } else {
        lined_up(list.drop_last()) + "\n"@ + list.last()
    }
}

impl AppState {
    /// The occurrences that an action on a group is for.
    fn targets_of(&self, group_id: i64) -> (r: Vec<OccurrenceView>)
        ensures
            occurrence_models(r@) == targets(*self, group_id),
    {
        let mut out: Vec<OccurrenceView> = Vec::new();
        let shown: Vec<OccurrenceView> = match self.group_by_id(group_id) {
            Some(g) => self.visible_occurrences_of(g),
            None => {
                assert(occurrence_models(out@) =~= targets(*self, group_id));
                return out;
            },
        };
        let ghost models = occurrence_models(shown@);
        let ghost checked = self.selected_occurrence_indices@;
        let mut i: usize = 0;
        while i < shown.len()
            invariant
                i <= shown.len(),
                models == occurrence_models(shown@),
                checked == self.selected_occurrence_indices@,
                out@.len() == checked_places(checked, group_id, i as int).len(),
                forall|k: int|
                    0 <= k < out@.len() ==> (#[trigger] out@[k])@ == models[checked_places(
                        checked,
                        group_id,
                        i as int,
                    )[k]],
            decreases shown.len() - i,
        {
            assert(models[i as int] == shown@[i as int]@);
            if self.is_occurrence_selected(group_id, i) {
                out.push(shown[i].clone());
            }
            i += 1;
        }
        if out.len() == 0 {
            assert(occurrence_models(shown@) =~= targets(*self, group_id));
            return shown;
        }
        assert(occurrence_models(out@) =~= targets(*self, group_id));
        out
    }

    /// The paths of a group to copy.
    pub fn copy_paths_for_group(&self, group_id: i64) -> (r: Vec<String>)
        ensures
            r@.len() == targets(*self, group_id).len(),
            forall|k: int| 0 <= k < r@.len() ==> (#[trigger] r@[k])@ == targets(*self, group_id)[k].path,
    {
        let list: Vec<OccurrenceView> = self.targets_of(group_id);
        let ghost models = targets(*self, group_id);
        assert(occurrence_models(list@).len() == list@.len());
        let mut out: Vec<String> = Vec::new();
        let mut i: usize = 0;
        while i < list.len()
            invariant
                i <= list.len(),
                models == occurrence_models(list@),
                out@.len() == i,
                forall|k: int| 0 <= k < i ==> (#[trigger] out@[k])@ == models[k].path,
            decreases list.len() - i,
        {
            assert(models[i as int] == list@[i as int]@);
            out.push(list[i].path.clone());
            i += 1;
        }
        out
    }

    /// The files and lines of a group to open in an editor.
    pub fn open_targets_for_group(&self, group_id: i64) -> (r: Vec<(String, u32)>)
        ensures
            r@.len() == targets(*self, group_id).len(),
            forall|k: int|
                0 <= k < r@.len() ==> (#[trigger] r@[k]).0@ == targets(*self, group_id)[k].path
                    && r@[k].1 == pane_line(targets(*self, group_id)[k].start_line as i64),
    {
        let list: Vec<OccurrenceView> = self.targets_of(group_id);
        let ghost models = targets(*self, group_id);
        assert(occurrence_models(list@).len() == list@.len());
        let mut out: Vec<(String, u32)> = Vec::new();
        let mut i: usize = 0;
        while i < list.len()
            invariant
                i <= list.len(),
                models == occurrence_models(list@),
                out@.len() == i,
                forall|k: int|
                    0 <= k < i ==> (#[trigger] out@[k]).0@ == models[k].path && out@[k].1
                        == pane_line(models[k].start_line as i64),
            decreases list.len() - i,
        {
            assert(models[i as int] == list@[i as int]@);
            out.push((list[i].path.clone(), line_for_pane(list[i].start_line)));
            i += 1;
        }
        out
    }
}

/// How many lines an occurrence has.
pub open spec fn line_count(o: OccurrenceModel) -> int {
    if o.end_line >= o.start_line {
        o.end_line - o.start_line + 1
    } else {
        0
    }
}

/// How many lines the first `n` occurrences have together.
pub open spec fn line_total(list: Seq<OccurrenceModel>, n: int) -> int
    decreases n,
{
    if n <= 0 {
        0
    } else {
        line_total(list, n - 1) + line_count(list[n - 1])
    }
}

/// Where a path starts and what it leads through.
pub open spec fn way(path: Seq<char>) -> (bool, Seq<Seq<char>>) {
    (is_rooted(path), steps(path))
}

/// The different files of the first `n` occurrences.
pub open spec fn file_set(list: Seq<OccurrenceModel>, n: int) -> Set<(bool, Seq<Seq<char>>)>
    decreases n,
{
    if n <= 0 {
        Set::empty()
    } else {
        file_set(list, n - 1).insert(way(list[n - 1].path))
    }
}

/// A file is in the set exactly where an occurrence is in it, and there are at
/// most as many files as occurrences.
proof fn lemma_file_set(list: Seq<OccurrenceModel>, n: int, path: Seq<char>)
    requires
        0 <= n <= list.len(),
    ensures
        file_set(list, n).contains(way(path)) <==> exists|k: int|
            0 <= k < n && same_way((#[trigger] list[k]).path, path),
        file_set(list, n).finite(),
        file_set(list, n).len() <= n,
    decreases n,
{
    if n > 0 {
        lemma_file_set(list, n - 1, path);
        if same_way(list[n - 1].path, path) {
            assert(file_set(list, n).contains(way(path)));
        }
    }
}

/// The most that can be counted, where a number is larger.
pub open spec fn capped(n: int) -> int {
    if n <= u64::MAX {
        n
    } else {
        u64::MAX as int
    }
}

/// How many lines an occurrence has, as far as that can be counted.
fn count_lines(o: &OccurrenceView) -> (r: u64)
    ensures
        r == capped(line_count(o@)),
{
    if o.end_line < o.start_line {
        return 0;
    }
    let n: i128 = o.end_line as i128 - o.start_line as i128 + 1;
    if n > 0xffff_ffff_ffff_ffff {
        u64::MAX
    } else {
        n as u64
    }
}

/// In how many files occurrences are, and how many lines they have together.
fn count_all(list: &Vec<OccurrenceView>) -> (r: (u64, u64))
    ensures
        r.0 == file_set(occurrence_models(list@), list@.len() as int).len(),
        r.1 == capped(line_total(occurrence_models(list@), list@.len() as int)),
{
    let ghost shown = occurrence_models(list@);
    let mut files: u64 = 0;
    let mut lines: u64 = 0;
    let mut i: usize = 0;
    while i < list.len()
        invariant
            i <= list.len(),
            shown == occurrence_models(list@),
            files == file_set(shown, i as int).len(),
            line_total(shown, i as int) >= 0,
            lines == capped(line_total(shown, i as int)),
        decreases list.len() - i,
    {
        let o: &OccurrenceView = &list[i];
        assert(shown[i as int] == o@);
        proof {
            lemma_file_set(shown, i as int, o.path@);
        }
        if !seen_before(&list, i) {
            files += 1;
        } else {
            assert(file_set(shown, i as int).insert(way(o.path@)) =~= file_set(shown, i as int));
        }
        let more: u64 = count_lines(o);
        lines = if lines > u64::MAX - more {
            u64::MAX
        } else {
            lines + more
        };
        i += 1;
    }
    (files, lines)
}

/// Whether an earlier occurrence is in the same file.
fn seen_before(list: &Vec<OccurrenceView>, i: usize) -> (r: bool)
    requires
        i < list@.len(),
    ensures
        r == exists|k: int|
            0 <= k < i && same_way(
                (#[trigger] occurrence_models(list@)[k]).path,
                list@[i as int].path@,
            ),
{
    let ghost models = occurrence_models(list@);
    let mut k: usize = 0;
    while k < i
        invariant
            k <= i < list@.len(),
            models == occurrence_models(list@),
            forall|j: int|
                0 <= j < k ==> !same_way((#[trigger] models[j]).path, list@[i as int].path@),
        decreases i - k,
    {
        assert(models[k as int] == list@[k as int]@);
        if same_path(list[k].path.as_str(), list[i].path.as_str()) {
            assert(same_way(models[k as int].path, list@[i as int].path@));
            return true;
        }
        k += 1;
    }
    false
}

/// What there is of the groups in the sidebar.
#[derive(Debug, Clone, Copy, PartialEq, Eq, Structural)]
pub struct SummaryCounts {
    pub groups: u64,
    /// Groups that were found by their syntax trees.
    pub functions: u64,
    /// Groups that were found as text.
    pub blocks: u64,
    /// Files that a shown occurrence is in.
    pub files: u64,
    /// Lines of the shown occurrences.
    pub lines: u64,
}

/// The shown occurrences of the first `n` groups.
pub open spec fn all_shown(groups: Seq<GroupModel>, set: Seq<(u64, String)>, n: int) -> Seq<
    OccurrenceModel,
>
    decreases n,
{
    if n <= 0 {
        Seq::empty()
    } else {
        all_shown(groups, set, n - 1) + visible_in(groups[n - 1], set)
    }
}

/// What a summary says.
pub open spec fn summary_text(c: SummaryCounts) -> Seq<char> {
    dec(c.groups as nat) + " groups \u{00B7} "@ + dec(c.functions as nat) + " functions \u{00B7} "@
        + dec(c.blocks as nat) + " blocks \u{00B7} "@ + dec(c.files as nat) + " files \u{00B7} "@
        + dec(c.lines as nat) + " duplicated lines"@
}

impl SummaryCounts {
    /// What the summary says.
    pub fn format(&self) -> (r: String)
        ensures
            r@ == summary_text(*self),
    {
        let mut out: String = String::new();
        push_dec(&mut out, self.groups);
        out.append(" groups \u{00B7} ");
        push_dec(&mut out, self.functions);
        out.append(" functions \u{00B7} ");
        push_dec(&mut out, self.blocks);
        out.append(" blocks \u{00B7} ");
        push_dec(&mut out, self.files);
        out.append(" files \u{00B7} ");
        push_dec(&mut out, self.lines);
        out.append(" duplicated lines");
        assert(out@ =~= summary_text(*self));
        out
    }
}

/// What there is of the groups in the sidebar.
pub open spec fn summary_of(s: AppState) -> SummaryCounts {
    let groups = groups_shown(s);
    let shown = all_shown(groups, s.session_occurrence_dismissed@, groups.len() as int);
    SummaryCounts {
        groups: groups.len() as u64,
        functions: of_tier(groups, Tier::B).len() as u64,
        blocks: of_tier(groups, Tier::A).len() as u64,
        files: file_set(shown, shown.len() as int).len() as u64,
        lines: capped(line_total(shown, shown.len() as int)) as u64,
    }
}

impl AppState {
    /// The shown occurrences of a group: in how many files they are, and how many
    /// lines they have together.
    pub fn group_toolbar_counts(&self, group_id: i64) -> (r: (u64, u64))
        ensures
            match group_from(self.groups@, group_id, 0) {
                Some(g) => {
                    let shown = visible_in(g, self.session_occurrence_dismissed@);
                    let n = shown.len() as int;
                    &&& r.0 == file_set(shown, n).len()
                    &&& r.1 == capped(line_total(shown, n))
                },
                None => r.0 == 0 && r.1 == 0,
            },
    {
        match self.group_by_id(group_id) {
            Some(g) => {
                let list: Vec<OccurrenceView> = self.visible_occurrences_of(g);
                assert(occurrence_models(list@).len() == list@.len());
                count_all(&list)
            },
            None => (0, 0),
        }
    }

    /// What there is of the groups in the sidebar.
    pub fn summary(&self) -> (r: SummaryCounts)
        ensures
            r == summary_of(*self),
    {
        let visible: Vec<GroupView> = self.visible_groups();
        let ghost groups = group_models(visible@);
        let ghost set = self.session_occurrence_dismissed@;
        let mut list: Vec<OccurrenceView> = Vec::new();
        let mut i: usize = 0;
        assert(occurrence_models(list@) =~= Seq::empty());
        while i < visible.len()
            invariant
                i <= visible.len(),
                groups == group_models(visible@),
                set == self.session_occurrence_dismissed@,
                occurrence_models(list@) == all_shown(groups, set, i as int),
            decreases visible.len() - i,
        {
            let ghost before = occurrence_models(list@);
            let mut more: Vec<OccurrenceView> = self.visible_occurrences_of(&visible[i]);
            let ghost here = occurrence_models(more@);
            list.append(&mut more);
            proof {
                assert(groups[i as int] == visible@[i as int]@);
                assert(occurrence_models(list@) =~= before + here);
            }
            i += 1;
        }
        let (files, lines): (u64, u64) = count_all(&list);
        let functions: Vec<GroupView> = copy_tier(&visible, Tier::B);
        let blocks: Vec<GroupView> = copy_tier(&visible, Tier::A);
        assert(occurrence_models(list@).len() == list@.len());
        assert(groups.len() == visible@.len());
        assert(group_models(functions@).len() == functions@.len());
        assert(group_models(blocks@).len() == blocks@.len());
        SummaryCounts {
            groups: visible.len() as u64,
            functions: functions.len() as u64,
            blocks: blocks.len() as u64,
            files,
            lines,
        }
    }
}

/// The paths of occurrences.
pub open spec fn paths_of(list: Seq<OccurrenceModel>) -> Seq<Seq<char>> {
    Seq::new(list.len(), |k: int| list[k].path)
}

// ---------------------------------------------------------------------------
// The window
// ---------------------------------------------------------------------------
impl ProjectView {
    /// Moves the cursor one row down, if the sidebar has the focus.
    pub fn next_group(&mut self)
        ensures
            final(self).state == (AppState {
                selected_group: if old(self).state.focused_pane == Pane::Sidebar {
                    below(groups_shown(old(self).state), old(self).state.selected_group)
                } else {
                    old(self).state.selected_group
                },
                ..old(self).state
            }),
    {
        if self.state.focused_pane == Pane::Sidebar {
            self.state.next_group();
        }
    }

    /// Moves the cursor one row up, if the sidebar has the focus.
    pub fn prev_group(&mut self)
        ensures
            final(self).state == (AppState {
                selected_group: if old(self).state.focused_pane == Pane::Sidebar {
                    above(groups_shown(old(self).state), old(self).state.selected_group)
                } else {
                    old(self).state.selected_group
                },
                ..old(self).state
            }),
    {
        if self.state.focused_pane == Pane::Sidebar {
            self.state.prev_group();
        }
    }

    /// Goes from the sidebar to the detail pane.
    pub fn activate_group(&mut self)
        ensures
            final(self).state == (AppState { focused_pane: Pane::Detail, ..old(self).state }),
    {
        if self.state.focused_pane == Pane::Sidebar {
            self.state.activate_group();
        }
    }

    /// Dismisses the selected group, if the sidebar has the focus, and returns
    /// what is to be stored of it: its hash and its number.
    pub fn dismiss_current_group(&mut self) -> (r: Option<(u64, i64)>)
        ensures
            match (old(self).state.focused_pane, old(self).state.selected_group) {
                (Pane::Sidebar, Some(id)) => match group_from(old(self).state.groups@, id, 0) {
                    Some(GroupModel { group_hash: Some(hash), .. }) => {
                        &&& r == Some((hash, id))
                        &&& final(self).state.groups@ == old(self).state.groups@.filter(
                            other_group(id),
                        )
                        &&& final(self).state == (AppState {
                            groups: final(self).state.groups,
                            selected_group: None,
                            ..old(self).state
                        })
                    },
                    _ => r is None && *final(self) == *old(self),
                },
                _ => r is None && *final(self) == *old(self),
            },
    {
        if self.state.focused_pane != Pane::Sidebar {
            return None;
        }
        self.state.dismiss_current_group()
    }

    /// Dismisses a group from its toolbar, and returns what is to be stored of
    /// it: its hash and its number.
    pub fn dismiss_group_toolbar(&mut self, group_id: i64) -> (r: Option<(u64, i64)>)
        ensures
            match group_from(old(self).state.groups@, group_id, 0) {
                Some(GroupModel { group_hash: Some(hash), .. }) => {
                    &&& r == Some((hash, group_id))
                    &&& final(self).state.groups@ == old(self).state.groups@.filter(
                        other_group(group_id),
                    )
                    &&& final(self).state == (AppState {
                        groups: final(self).state.groups,
                        selected_group: if old(self).state.selected_group == Some(group_id) {
                            None
                        } else {
                            old(self).state.selected_group
                        },
                        ..old(self).state
                    })
                },
                _ => r is None && *final(self) == *old(self),
            },
    {
        self.state.dismiss_group(group_id)
    }

    /// Restores a dismissed occurrence, and returns what is to be taken out of
    /// the cache: its hash and its path.
    pub fn restore_occurrence_click(&mut self, hash: u64, path: &str) -> (r: Option<(u64, String)>)
        ensures
            match hash_from(old(self).state.dismissed@, hash, 0) {
                Some(n) => {
                    let before = old(self).state.dismissed@;
                    if has_path(before[n].occurrence_dismissals@, path@) {
                        &&& r matches Some((h, p)) && h == hash && p@ == path@
                        &&& without_path(before[n], final(self).state.dismissed@[n], path@)
                        &&& final(self).state.dismissed@ == before.update(
                            n,
                            final(self).state.dismissed@[n],
                        )
                        &&& final(self).state.session_occurrence_dismissed@ == old(
                            self,
                        ).state.session_occurrence_dismissed@.filter(other_dismissal(hash, path@))
                        &&& final(self).state == (AppState {
                            dismissed: final(self).state.dismissed,
                            session_occurrence_dismissed: final(
                                self
                            ).state.session_occurrence_dismissed,
                            ..old(self).state
                        })
                    } else {
                        r is None && *final(self) == *old(self)
                    }
                },
                None => r is None && *final(self) == *old(self),
            },
            old(self).state.sets_hold() ==> final(self).state.sets_hold(),
    {
        self.state.restore_occurrence(hash, path)
    }

    /// Collapses every occurrence of the selected group.
    pub fn collapse_all(&mut self)
        ensures
            final(self).state.collapsed_occurrences@ == match old(self).state.selected_group {
                Some(id) => with_all(
                    old(self).state.collapsed_occurrences@,
                    id,
                    occurrences_shown(old(self).state).len() as int,
                ),
                None => old(self).state.collapsed_occurrences@,
            },
            final(self).state == (AppState {
                collapsed_occurrences: final(self).state.collapsed_occurrences,
                ..old(self).state
            }),
            old(self).state.sets_hold() ==> final(self).state.sets_hold(),
    {
        self.state.collapse_all_in_active_group();
    }

    /// Expands every occurrence of the selected group.
    pub fn expand_all(&mut self)
        ensures
            final(self).state.collapsed_occurrences@ == match old(self).state.selected_group {
                Some(id) => old(self).state.collapsed_occurrences@.filter(
                    |e: (i64, usize)| e.0 != id,
                ),
                None => old(self).state.collapsed_occurrences@,
            },
            final(self).state == (AppState {
                collapsed_occurrences: final(self).state.collapsed_occurrences,
                ..old(self).state
            }),
            old(self).state.sets_hold() ==> final(self).state.sets_hold(),
    {
        self.state.expand_all_in_active_group();
    }

    /// Moves the focus to the sidebar, where the search box is.
    pub fn find_in_sidebar(&mut self)
        ensures
            final(self).state == (AppState { focused_pane: Pane::Sidebar, ..old(self).state }),
    {
        self.focus_sidebar();
    }

    /// Restores a dismissed group, and returns the hash whose dismissals, those
    /// of single occurrences too, are to be taken out of the cache before the
    /// folder is read again.
    pub fn restore_group_click(&mut self, hash: u64) -> (r: Option<u64>)
        ensures
            match hash_from(old(self).state.dismissed@, hash, 0) {
                Some(n) => {
                    &&& r == Some(hash)
                    &&& final(self).state.dismissed@ == old(self).state.dismissed@.filter(
                        other_hash(hash),
                    )
                    &&& final(self).state.session_occurrence_dismissed@ == old(
                        self,
                    ).state.session_occurrence_dismissed@.filter(under_other_hash(hash))
                    &&& final(self).state == (AppState {
                        dismissed: final(self).state.dismissed,
                        session_occurrence_dismissed: final(
                            self
                        ).state.session_occurrence_dismissed,
                        selected_group: match old(self).state.dismissed@[n].last_group_id {
                            Some(id) => Some(id),
                            None => old(self).state.selected_group,
                        },
                        ..old(self).state
                    })
                },
                None => r is None && *final(self) == *old(self),
            },
            old(self).state.sets_hold() ==> final(self).state.sets_hold(),
    {
        match self.state.restore_group(hash) {
            Some((h, _)) => Some(h),
            None => None,
        }
    }

    /// Takes over the folder as it was read after a group was restored. A group
    /// that was selected and is there stays selected, and the detail pane gets
    /// the focus.
    pub fn reload_after_restore(&mut self, result: FolderLoadResult)
        ensures
            ({
                let kept = match old(self).state.selected_group {
                    Some(id) => group_from(result.groups@, id, 0) is Some,
                    None => false,
                };
                final(self).state == (AppState {
                    current_folder: Some(result.folder),
                    groups: result.groups,
                    dismissed: result.dismissed,
                    status: result.status,
                    selected_group: if kept {
                        old(self).state.selected_group
                    } else if result.groups@.len() > 0 {
                        Some(result.groups@[0].id)
                    } else {
                        None
                    },
                    dismissed_expanded: false,
                    focused_pane: if kept {
                        Pane::Detail
                    } else {
                        old(self).state.focused_pane
                    },
                    ..old(self).state
                })
            }),
    {
        let selected: Option<i64> = self.state.selected_group;
        self.state.set_folder_result(result);
        if let Some(id) = selected {
            if self.state.group_by_id(id).is_some() {
                self.state.selected_group = Some(id);
                self.state.focused_pane = Pane::Detail;
            }
        }
    }

    /// The paths of a group for the clipboard, one on each line, if there are
    /// any.
    pub fn copy_paths_for_group(&self, group_id: i64) -> (r: Option<String>)
        ensures
            match r {
                Some(text) => targets(self.state, group_id).len() > 0 && text@ == lined_up(
                    paths_of(targets(self.state, group_id)),
                ),
                None => targets(self.state, group_id).len() == 0,
            },
    {
        let paths: Vec<String> = self.state.copy_paths_for_group(group_id);
        if paths.len() == 0 {
            return None;
        }
        let ghost all = paths_of(targets(self.state, group_id));
        let mut out: String = paths[0].clone();
        assert(all.take(1).len() == 1);
        let mut i: usize = 1;
        while i < paths.len()
            invariant
                1 <= i <= paths.len(),
                all.len() == paths@.len(),
                forall|k: int| 0 <= k < paths@.len() ==> (#[trigger] paths@[k])@ == all[k],
                out@ == lined_up(all.take(i as int)),
            decreases paths.len() - i,
        {
            proof {
                assert(all.take(i + 1).drop_last() =~= all.take(i as int));
                assert(all.take(i + 1).last() == paths@[i as int]@);
            }
            out.append("\n");
            out.append(paths[i].as_str());
            i += 1;
        }
        assert(all.take(i as int) =~= all);
        Some(out)
    }

    /// The files and lines of a group to open in an editor.
    pub fn open_group_in_editor(&self, group_id: i64) -> (r: Vec<(String, u32)>)
        ensures
            r@.len() == targets(self.state, group_id).len(),
            forall|k: int|
                0 <= k < r@.len() ==> (#[trigger] r@[k]).0@ == targets(
                    self.state,
                    group_id,
                )[k].path && r@[k].1 == pane_line(
                    targets(self.state, group_id)[k].start_line as i64,
                ),
    {
        self.state.open_targets_for_group(group_id)
    }
}

// ---------------------------------------------------------------------------
// Laws
// ---------------------------------------------------------------------------
/// The first place is at or behind the start, and holds the number.
proof fn lemma_place_from(found: Seq<GroupModel>, id: i64, i: int)
    requires
        0 <= i <= found.len(),
    ensures
        match place_from(found, id, i) {
            Some(n) => {
                &&& i <= n < found.len()
                &&& found[n].id == id
                &&& forall|k: int| i <= k < n ==> (#[trigger] found[k]).id != id
            },
            None => forall|k: int| i <= k < found.len() ==> (#[trigger] found[k]).id != id,
        },
    decreases found.len() - i,
{
    if i < found.len() && found[i].id != id {
        lemma_place_from(found, id, i + 1);
    }
}

/// As long as groups are shown, the cursor is on one of them after each step.
pub proof fn law_cursor_stays_in_list(found: Seq<GroupModel>, selected: Option<i64>)
    requires
        found.len() > 0,
    ensures
        cursor_place(found, below(found, selected)) is Some,
        cursor_place(found, above(found, selected)) is Some,
{
    if let Some(id) = selected {
        lemma_place_from(found, id, 0);
    }
    lemma_place_from(found, below(found, selected)->0, 0);
    lemma_place_from(found, above(found, selected)->0, 0);
    if let Some(n) = cursor_place(found, selected) {
        if n + 1 < found.len() {
            assert(found[n + 1].id == below(found, selected)->0);
        } else {
            assert(found[n].id == below(found, selected)->0);
        }
        if n > 0 {
            assert(found[n - 1].id == above(found, selected)->0);
        } else {
            assert(found[n].id == above(found, selected)->0);
        }
    } else {
        assert(found[0].id == below(found, selected)->0);
        assert(found[0].id == above(found, selected)->0);
    }
}

/// A step down from a row that is not the last, and a step up, lead back, where
/// no two groups have one number.
pub proof fn law_down_and_up(found: Seq<GroupModel>, n: int)
    requires
        0 <= n,
        n + 1 < found.len(),
        forall|i: int, j: int|
            0 <= i < j < found.len() ==> (#[trigger] found[i]).id != (#[trigger] found[j]).id,
    ensures
        below(found, Some(found[n].id)) == Some(found[n + 1].id),
        above(found, Some(found[n + 1].id)) == Some(found[n].id),
{
    lemma_place_from(found, found[n].id, 0);
    lemma_place_from(found, found[n + 1].id, 0);
}

/// The first group with a number, after a list of others.
proof fn lemma_group_from_filter(groups: Seq<GroupView>, id: i64, other: i64, n: int)
    requires
        0 <= n <= groups.len(),
    ensures
        ({
            let left = groups.take(n).filter(other_group(id));
            &&& group_from(left, id, 0) is None
            &&& other != id ==> group_from(left, other, 0) == group_from(groups.take(n), other, 0)
        }),
    decreases n,
{
    reveal(Seq::filter);
    if n == 0 {
        assert(groups.take(0) =~= Seq::empty());
        assert(groups.take(0).filter(other_group(id)) =~= Seq::empty());
    } else {
        lemma_group_from_filter(groups, id, other, n - 1);
        lemma_filter_step(groups, other_group(id), n - 1);
        let before = groups.take(n - 1).filter(other_group(id));
        let g = groups[n - 1];
        assert(groups.take(n) =~= groups.take(n - 1).push(g));
        lemma_group_from_push(groups.take(n - 1), g, other, 0);
        if g.id != id {
            lemma_group_from_push(before, g, id, 0);
            lemma_group_from_push(before, g, other, 0);
        }
    }
}

/// One more group at the end is found only where none was before.
proof fn lemma_group_from_push(groups: Seq<GroupView>, g: GroupView, id: i64, i: int)
    requires
        0 <= i <= groups.len(),
    ensures
        group_from(groups.push(g), id, i) == match group_from(groups, id, i) {
            Some(m) => Some(m),
            None => if g.id == id {
                Some(g@)
            } else {
                None
            },
        },
    decreases groups.len() - i,
{
    let more = groups.push(g);
    if i < groups.len() {
        assert(more[i] == groups[i]);
        lemma_group_from_push(groups, g, id, i + 1);
    } else {
        assert(more[i] == g);
        assert(group_from(more, id, i + 1) is None);
    }
}

/// A dismissed group is gone from the list, and no other group is.
pub proof fn law_dismissed_group_is_gone(groups: Seq<GroupView>, id: i64, other: i64)
    ensures
        group_from(groups.filter(other_group(id)), id, 0) is None,
        other != id ==> group_from(groups.filter(other_group(id)), other, 0) == group_from(
            groups,
            other,
            0,
        ),
{
    lemma_group_from_filter(groups, id, other, groups.len() as int);
    assert(groups.take(groups.len() as int) =~= groups);
}

/// No occurrence of a path is shown once one was dismissed.
pub proof fn law_dismissed_occurrence_is_hidden(
    g: GroupModel,
    set: Seq<(u64, String)>,
    path: String,
    i: int,
)
    requires
        g.group_hash is Some,
        0 <= i < visible_in(g, set.push((g.group_hash->0, path))).len(),
    ensures
        !same_way(path@, visible_in(g, set.push((g.group_hash->0, path)))[i].path),
{
    let now = set.push((g.group_hash->0, path));
    crate::app_state::law_dismissed_occurrences_are_hidden(
        g,
        now,
        g.occurrences.len() as int,
        i,
    );
    assert(now[set.len() as int] == (g.group_hash->0, path));
}

/// An occurrence that was restored counts as dismissed no longer.
pub proof fn law_restored_occurrence_is_back(set: Seq<(u64, String)>, hash: u64, path: Seq<char>)
    ensures
        !crate::app_state::is_dismissed_now(
            set.filter(other_dismissal(hash, path)),
            Some(hash),
            path,
        ),
{
    let keep = other_dismissal(hash, path);
    let left = set.filter(keep);
    assert forall|i: int| 0 <= i < left.len() implies !((#[trigger] left[i]).0 == hash && same_way(
        left[i].1@,
        path,
    )) by {
        set.lemma_filter_pred(keep, i);
        assert(keep(left[i]));
    }
}

/// Every occurrence of a restored group is shown.
pub proof fn law_restored_group_hides_nothing(g: GroupModel, set: Seq<(u64, String)>, hash: u64)
    requires
        g.group_hash == Some(hash),
    ensures
        visible_in(g, set.filter(under_other_hash(hash))) == g.occurrences,
{
    lemma_all_visible(g, set, hash, g.occurrences.len() as int);
    assert(g.occurrences.take(g.occurrences.len() as int) =~= g.occurrences);
}

/// The first occurrences of a restored group are shown.
proof fn lemma_all_visible(g: GroupModel, set: Seq<(u64, String)>, hash: u64, n: int)
    requires
        g.group_hash == Some(hash),
        0 <= n <= g.occurrences.len(),
    ensures
        crate::app_state::visible_upto(g, set.filter(under_other_hash(hash)), n)
            == g.occurrences.take(n),
    decreases n,
{
    let keep = under_other_hash(hash);
    let left = set.filter(keep);
    if n > 0 {
        lemma_all_visible(g, set, hash, n - 1);
        assert forall|i: int| 0 <= i < left.len() implies (#[trigger] left[i]).0 != hash by {
            set.lemma_filter_pred(keep, i);
            assert(keep(left[i]));
        }
        assert(g.occurrences.take(n) =~= g.occurrences.take(n - 1).push(g.occurrences[n - 1]));
    } else {
        assert(g.occurrences.take(0) =~= Seq::empty());
    }
}

/// The cursor stays on the last row when it goes down and on the first one when
/// it goes up. It starts on the first row where nothing that is shown is
/// selected, and stays as it is where nothing is shown.
pub proof fn law_cursor_ends(found: Seq<GroupModel>, selected: Option<i64>)
    ensures
        found.len() == 0 ==> below(found, selected) == selected && above(found, selected)
            == selected,
        found.len() > 0 && (selected is None || forall|i: int|
            0 <= i < found.len() ==> (#[trigger] found[i]).id != selected->0) ==> below(
            found,
            selected,
        ) == Some(found[0].id) && above(found, selected) == Some(found[0].id),
        found.len() > 0 && selected == Some(found[0].id) ==> above(found, selected) == selected,
        found.len() > 0 && selected == Some(found.last().id) && (forall|i: int|
            0 <= i < found.len() - 1 ==> (#[trigger] found[i]).id != selected->0) ==> below(
            found,
            selected,
        ) == selected,
{
    if found.len() > 0 && selected is Some {
        lemma_place(found, selected->0, 0);
    }
}

/// The place of a group is the first at which it stands, and where there is none
/// it stands nowhere.
proof fn lemma_place(found: Seq<GroupModel>, id: i64, i: int)
    requires
        0 <= i <= found.len(),
    ensures
        place_from(found, id, i) is None ==> forall|k: int|
            i <= k < found.len() ==> (#[trigger] found[k]).id != id,
        place_from(found, id, i) is Some ==> i <= place_from(found, id, i)->0 < found.len()
            && found[place_from(found, id, i)->0].id == id && forall|k: int|
            i <= k < place_from(found, id, i)->0 ==> (#[trigger] found[k]).id != id,
    decreases found.len() - i,
{
    if i < found.len() {
        lemma_place(found, id, i + 1);
    }
}

/// The cursor is at the first group with the selected number.
pub proof fn law_cursor_is_at_selected(found: Seq<GroupModel>, n: int)
    requires
        0 <= n < found.len(),
        forall|i: int| 0 <= i < n ==> (#[trigger] found[i]).id != found[n].id,
    ensures
        cursor_place(found, Some(found[n].id)) == Some(n),
        cursor_place(found, None) is None,
{
    lemma_place(found, found[n].id, 0);
}

/// A dismissed group is looked up at the first place at which its hash stands.
pub proof fn law_hash_is_found(list: Seq<SuppressionView>, hash: u64, i: int, n: int)
    requires
        0 <= i <= n <= list.len(),
        forall|k: int| i <= k < n ==> (#[trigger] list[k]).hash != hash,
        n < list.len() ==> list[n].hash == hash,
    ensures
        hash_from(list, hash, i) == if n < list.len() {
            Some(n)
        } else {
            None
        },
    decreases n - i,
{
    if i < n {
        law_hash_is_found(list, hash, i + 1, n);
    }
}

/// Restoring an occurrence leaves all other dismissals as they are.
pub proof fn law_restoring_keeps_other_occurrences(
    set: Seq<(u64, String)>,
    hash: u64,
    path: Seq<char>,
    other: u64,
    elsewhere: Seq<char>,
)
    requires
        other != hash || !same_way(path, elsewhere),
    ensures
        crate::app_state::is_dismissed_now(
            set.filter(other_dismissal(hash, path)),
            Some(other),
            elsewhere,
        ) == crate::app_state::is_dismissed_now(set, Some(other), elsewhere),
{
    let keep = other_dismissal(hash, path);
    lemma_kept(set, keep);
    let kept = set.filter(keep);
    if crate::app_state::is_dismissed_now(set, Some(other), elsewhere) {
        let i = choose|i: int|
            0 <= i < set.len() && (#[trigger] set[i]).0 == other && same_way(
                set[i].1@,
                elsewhere,
            );
        assert(keep(set[i]));
        assert(kept.contains(set[i]));
        let j = choose|j: int| 0 <= j < kept.len() && kept[j] == set[i];
        assert(kept[j].0 == other && same_way(kept[j].1@, elsewhere));
    }
    if crate::app_state::is_dismissed_now(kept, Some(other), elsewhere) {
        let j = choose|j: int|
            0 <= j < kept.len() && (#[trigger] kept[j]).0 == other && same_way(
                kept[j].1@,
                elsewhere,
            );
        assert(kept.contains(kept[j]));
        assert(set.contains(kept[j]));
        let i = choose|i: int| 0 <= i < set.len() && set[i] == kept[j];
        assert(set[i].0 == other && same_way(set[i].1@, elsewhere));
    }
}

/// Restoring a group leaves the dismissals under all other hashes as they are.
pub proof fn law_restoring_keeps_other_groups(
    set: Seq<(u64, String)>,
    hash: u64,
    other: u64,
    path: Seq<char>,
)
    requires
        other != hash,
    ensures
        crate::app_state::is_dismissed_now(set.filter(under_other_hash(hash)), Some(other), path)
            == crate::app_state::is_dismissed_now(set, Some(other), path),
{
    let keep = under_other_hash(hash);
    lemma_kept(set, keep);
    let kept = set.filter(keep);
    if crate::app_state::is_dismissed_now(set, Some(other), path) {
        let i = choose|i: int|
            0 <= i < set.len() && (#[trigger] set[i]).0 == other && same_way(set[i].1@, path);
        assert(keep(set[i]));
        assert(kept.contains(set[i]));
        let j = choose|j: int| 0 <= j < kept.len() && kept[j] == set[i];
        assert(kept[j].0 == other && same_way(kept[j].1@, path));
    }
    if crate::app_state::is_dismissed_now(kept, Some(other), path) {
        let j = choose|j: int|
            0 <= j < kept.len() && (#[trigger] kept[j]).0 == other && same_way(kept[j].1@, path);
        assert(kept.contains(kept[j]));
        assert(set.contains(kept[j]));
        let i = choose|i: int| 0 <= i < set.len() && set[i] == kept[j];
        assert(set[i].0 == other && same_way(set[i].1@, path));
    }
}

/// What is kept of a list is what the test holds of.
proof fn lemma_kept(set: Seq<(u64, String)>, keep: spec_fn((u64, String)) -> bool)
    ensures
        forall|e: (u64, String)|
            #[trigger] set.filter(keep).contains(e) <==> set.contains(e) && keep(e),
    decreases set.len(),
{
    reveal(Seq::filter);
    if set.len() > 0 {
        let before = set.drop_last();
        lemma_kept(before, keep);
        let kept = before.filter(keep);
        assert forall|e: (u64, String)|
            #[trigger] set.filter(keep).contains(e) == (set.contains(e) && keep(e)) by {
            assert(kept.contains(e) == (before.contains(e) && keep(e)));
            assert(set =~= before.push(set.last()));
            if before.contains(e) {
                let i = choose|i: int| 0 <= i < before.len() && before[i] == e;
                assert(set[i] == e);
            }
            if set.contains(e) {
                let i = choose|i: int| 0 <= i < set.len() && set[i] == e;
                if i < before.len() {
                    assert(before[i] == e);
                }
            }
            if keep(set.last()) {
                let more = kept.push(set.last());
                if kept.contains(e) {
                    let i = choose|i: int| 0 <= i < kept.len() && kept[i] == e;
                    assert(more[i] == e);
                }
                if e == set.last() {
                    assert(more[kept.len() as int] == e);
                    assert(set[before.len() as int] == e);
                }
                if more.contains(e) {
                    let i = choose|i: int| 0 <= i < more.len() && more[i] == e;
                    if i < kept.len() {
                        assert(kept[i] == e);
                    }
                }
            }
        }
    }
}

/// Restoring a group takes it out of the list of dismissed groups, and no other.
pub proof fn law_restored_group_leaves_the_list(list: Seq<SuppressionView>, hash: u64)
    ensures
        list.filter(other_hash(hash)) == list.filter(|d: SuppressionView| d.hash != hash),
{
    assert(other_hash(hash) =~= (|d: SuppressionView| d.hash != hash));
}

/// Restoring an occurrence of a dismissed group takes out what was dismissed with
/// its path, and nothing else.
pub proof fn law_restored_path_leaves_the_group(
    d: SuppressionView,
    new: SuppressionView,
    path: Seq<char>,
)
    requires
        without_path(d, new, path),
    ensures
        new.occurrence_dismissals@ == d.occurrence_dismissals@.filter(
            |o: OccurrenceDismissal| !same_way(o.path@, path),
        ),
        new.hash == d.hash,
{
    assert(other_path(path) =~= (|o: OccurrenceDismissal| !same_way(o.path@, path)));
}

/// An action on a group is for the checked ones of its shown occurrences, in
/// order, and for all of them where none is checked.
pub proof fn law_checked_places(checked: Seq<(i64, usize)>, id: i64, n: int)
    requires
        0 <= n,
    ensures
        ({
            let all = Seq::new(n as nat, |k: int| k);
            let picked = all.filter(|k: int| checked.contains((id, k as usize)));
            target_places(checked, id, n) == if picked.len() == 0 {
                all
            } else {
                picked
            }
        }),
{
    lemma_places_are_checked(checked, id, n);
}

/// The checked places are those that are checked.
proof fn lemma_places_are_checked(checked: Seq<(i64, usize)>, id: i64, n: int)
    requires
        0 <= n,
    ensures
        checked_places(checked, id, n) == Seq::new(n as nat, |k: int| k).filter(
            |k: int| checked.contains((id, k as usize)),
        ),
    decreases n,
{
    reveal(Seq::filter);
    let all = Seq::new(n as nat, |k: int| k);
    if n > 0 {
        lemma_places_are_checked(checked, id, n - 1);
        assert(all.drop_last() =~= Seq::new((n - 1) as nat, |k: int| k));
    }
}

/// What an action on a group is for: of the shown occurrences of the group the
/// checked ones, in order, or all of them where none is checked.
pub proof fn law_targets(s: AppState, g: GroupModel, id: i64)
    requires
        group_from(s.groups@, id, 0) == Some(g),
    ensures
        ({
            let shown = visible_in(g, s.session_occurrence_dismissed@);
            let checked = s.selected_occurrence_indices@;
            let all = Seq::new(shown.len(), |k: int| k);
            let picked = all.filter(|k: int| checked.contains((id, k as usize)));
            targets(s, id) == if picked.len() == 0 {
                shown
            } else {
                picked.map_values(|k: int| shown[k])
            }
        }),
{
    let shown = visible_in(g, s.session_occurrence_dismissed@);
    let checked = s.selected_occurrence_indices@;
    law_checked_places(checked, id, shown.len() as int);
    let all = Seq::new(shown.len(), |k: int| k);
    let picked = all.filter(|k: int| checked.contains((id, k as usize)));
    if picked.len() == 0 {
        assert(targets(s, id) =~= shown);
    } else {
        assert(targets(s, id) =~= picked.map_values(|k: int| shown[k]));
    }
}

/// Where a group is not there, an action on it is for nothing.
pub proof fn law_no_targets(s: AppState, id: i64)
    requires
        forall|i: int| 0 <= i < s.groups@.len() ==> (#[trigger] s.groups@[i]).id != id,
    ensures
        targets(s, id).len() == 0,
{
    lemma_no_group(s.groups@, id, 0);
}

/// A group that stands nowhere is not found.
proof fn lemma_no_group(groups: Seq<GroupView>, id: i64, i: int)
    requires
        0 <= i <= groups.len(),
        forall|k: int| 0 <= k < groups.len() ==> (#[trigger] groups[k]).id != id,
    ensures
        group_from(groups, id, i) is None,
    decreases groups.len() - i,
{
    if i < groups.len() {
        lemma_no_group(groups, id, i + 1);
    }
}

/// Texts that are lined up stand one behind the other with a line feed between
/// each two, and with none in front and none at the end.
pub proof fn law_lined_up(list: Seq<Seq<char>>, last: Seq<char>)
    ensures
        lined_up(Seq::empty()) == Seq::<char>::empty(),
        lined_up(seq![last]) == last,
        list.len() > 0 ==> lined_up(list.push(last)) == lined_up(list) + seq!['\n'] + last,
{
    reveal_strlit("\n");
    assert("\n"@ =~= seq!['\n']);
    assert(list.push(last).drop_last() =~= list);
}

/// An occurrence has the lines from its first to its last one, both of them
/// counted, and all of them are counted together.
pub proof fn law_lines_of_occurrences(list: Seq<OccurrenceModel>)
    requires
        forall|k: int| 0 <= k < list.len() ==> (#[trigger] list[k]).start_line <= list[k].end_line,
    ensures
        line_total(list, list.len() as int) == list.fold_left(
            0int,
            |sum: int, o: OccurrenceModel| sum + (o.end_line - o.start_line + 1),
        ),
    decreases list.len(),
{
    if list.len() > 0 {
        let before = list.drop_last();
        assert forall|k: int| 0 <= k < before.len() implies (#[trigger] before[k]).start_line
            <= before[k].end_line by {
            assert(before[k] == list[k]);
        }
        law_lines_of_occurrences(before);
        lemma_total_of_start(before, list, before.len() as int);
    }
}

/// The lines of the first occurrences depend on these alone.
proof fn lemma_total_of_start(a: Seq<OccurrenceModel>, b: Seq<OccurrenceModel>, n: int)
    requires
        0 <= n <= a.len(),
        n <= b.len(),
        forall|k: int| 0 <= k < n ==> a[k] == b[k],
    ensures
        line_total(a, n) == line_total(b, n),
    decreases n,
{
    if n > 0 {
        lemma_total_of_start(a, b, n - 1);
    }
}

/// The files of occurrences are the paths at which they are, each counted once,
/// however it is written.
pub proof fn law_files_of_occurrences(list: Seq<OccurrenceModel>, n: int, i: int, j: int)
    requires
        0 <= n <= list.len(),
        0 <= i < n,
        0 <= j < n,
    ensures
        forall|f: (bool, Seq<Seq<char>>)|
            #[trigger] file_set(list, n).contains(f) <==> exists|k: int|
                0 <= k < n && f == (is_rooted((#[trigger] list[k]).path), steps(list[k].path)),
        same_way(list[i].path, list[j].path) ==> way(list[i].path) == way(list[j].path),
{
    lemma_files(list, n);
}

/// The files of the first occurrences.
proof fn lemma_files(list: Seq<OccurrenceModel>, n: int)
    requires
        0 <= n <= list.len(),
    ensures
        forall|f: (bool, Seq<Seq<char>>)|
            #[trigger] file_set(list, n).contains(f) <==> exists|k: int|
                0 <= k < n && f == (is_rooted((#[trigger] list[k]).path), steps(list[k].path)),
    decreases n,
{
    if n > 0 {
        lemma_files(list, n - 1);
        assert forall|f: (bool, Seq<Seq<char>>)|
            #[trigger] file_set(list, n).contains(f) == (exists|k: int|
                0 <= k < n && f == (is_rooted((#[trigger] list[k]).path), steps(list[k].path))) by {
            if file_set(list, n - 1).contains(f) {
                let k = choose|k: int|
                    0 <= k < n - 1 && f == (
                        is_rooted((#[trigger] list[k]).path),
                        steps(list[k].path),
                    );
                assert(f == (is_rooted(list[k].path), steps(list[k].path)));
            }
            if exists|k: int|
                0 <= k < n && f == (is_rooted((#[trigger] list[k]).path), steps(list[k].path)) {
                let k = choose|k: int|
                    0 <= k < n && f == (is_rooted((#[trigger] list[k]).path), steps(list[k].path));
                if k < n - 1 {
                    assert(file_set(list, n - 1).contains(f));
                }
            }
            if f == way(list[n - 1].path) {
                assert(f == (is_rooted(list[n - 1].path), steps(list[n - 1].path)));
            }
        }
    }
}

/// The summary counts the groups in the sidebar, those among them that are found
/// as functions and as blocks, and the files and the lines of what is shown of
/// them.
pub proof fn law_summary_counts(s: AppState)
    ensures
        ({
            let groups = groups_shown(s);
            let shown = groups.map_values(
                |g: GroupModel| visible_in(g, s.session_occurrence_dismissed@),
            ).flatten();
            let files = file_set(shown, shown.len() as int);
            let lines = line_total(shown, shown.len() as int);
            let c = summary_of(s);
            &&& c.groups == groups.len() as u64
            &&& c.functions == groups.filter(|g: GroupModel| g.tier == Tier::B).len() as u64
            &&& c.blocks == groups.filter(|g: GroupModel| g.tier == Tier::A).len() as u64
            &&& c.files == files.len() as u64
            &&& lines <= u64::MAX ==> c.lines == lines as u64
            &&& lines > u64::MAX ==> c.lines == u64::MAX
        }),
{
    let groups = groups_shown(s);
    lemma_all_shown(groups, s.session_occurrence_dismissed@, groups.len() as int);
    assert(groups.take(groups.len() as int) =~= groups);
}

/// What is shown of the first groups.
proof fn lemma_all_shown(groups: Seq<GroupModel>, set: Seq<(u64, String)>, n: int)
    requires
        0 <= n <= groups.len(),
    ensures
        all_shown(groups, set, n) == groups.take(n).map_values(
            |g: GroupModel| visible_in(g, set),
        ).flatten(),
    decreases n,
{
    let f = |g: GroupModel| visible_in(g, set);
    if n > 0 {
        lemma_all_shown(groups, set, n - 1);
        let before = groups.take(n - 1).map_values(f);
        assert(groups.take(n).map_values(f) =~= before.push(visible_in(groups[n - 1], set)));
        before.lemma_flatten_push(visible_in(groups[n - 1], set));
    } else {
        assert(groups.take(0).map_values(f) =~= Seq::empty());
    }
}

/// What the summary says: how many groups, functions, blocks, files and lines
/// there are, in this order.
pub proof fn law_summary_text(c: SummaryCounts)
    ensures
        summary_text(c) == seq![
            dec(c.groups as nat),
            " groups \u{00B7} "@,
            dec(c.functions as nat),
            " functions \u{00B7} "@,
            dec(c.blocks as nat),
            " blocks \u{00B7} "@,
            dec(c.files as nat),
            " files \u{00B7} "@,
            dec(c.lines as nat),
            " duplicated lines"@,
        ].flatten(),
{
    let parts = seq![
        dec(c.groups as nat),
        " groups \u{00B7} "@,
        dec(c.functions as nat),
        " functions \u{00B7} "@,
        dec(c.blocks as nat),
        " blocks \u{00B7} "@,
        dec(c.files as nat),
        " files \u{00B7} "@,
        dec(c.lines as nat),
        " duplicated lines"@,
    ];
    lemma_joined(parts, 10);
    reveal_with_fuel(joined, 11);
    assert(parts.take(10) =~= parts);
    assert(joined(parts, 10) =~= summary_text(c));
}

/// The first texts, one behind the other.
spec fn joined(parts: Seq<Seq<char>>, n: int) -> Seq<char>
    decreases n,
{
    if n <= 0 {
        Seq::empty()
    } else {
        joined(parts, n - 1) + parts[n - 1]
    }
}

/// The first texts, one behind the other, are the flattened list of them.
proof fn lemma_joined(parts: Seq<Seq<char>>, n: int)
    requires
        0 <= n <= parts.len(),
    ensures
        joined(parts, n) == parts.take(n).flatten(),
    decreases n,
{
    if n > 0 {
        lemma_joined(parts, n - 1);
        let before = parts.take(n - 1);
        assert(parts.take(n) =~= before.push(parts[n - 1]));
        before.lemma_flatten_push(parts[n - 1]);
    } else {
        assert(parts.take(0) =~= Seq::empty());
    }
}

/// Dismissing an occurrence hides no occurrence with another path, and nothing in
/// a group with another hash.
pub proof fn law_dismissing_hides_nothing_else(
    set: Seq<(u64, String)>,
    hash: u64,
    path: String,
    other: u64,
    elsewhere: Seq<char>,
)
    requires
        other != hash || !same_way(path@, elsewhere),
    ensures
        crate::app_state::is_dismissed_now(set.push((hash, path)), Some(other), elsewhere)
            == crate::app_state::is_dismissed_now(set, Some(other), elsewhere),
{
    let more = set.push((hash, path));
    if crate::app_state::is_dismissed_now(set, Some(other), elsewhere) {
        let i = choose|i: int|
            0 <= i < set.len() && (#[trigger] set[i]).0 == other && same_way(
                set[i].1@,
                elsewhere,
            );
        assert(more[i] == set[i]);
    }
    if crate::app_state::is_dismissed_now(more, Some(other), elsewhere) {
        let i = choose|i: int|
            0 <= i < more.len() && (#[trigger] more[i]).0 == other && same_way(
                more[i].1@,
                elsewhere,
            );
        assert(i < set.len());
        assert(more[i] == set[i]);
    }
}

} // verus!
