//! When values with paths in them are equal: paths that lead the same way count
//! as the same path.
use crate::app_state::{
    text_of, AppStatus, FolderLoadResult, GroupView, OccurrenceDismissal, OccurrenceView, Span,
    SuppressionView,
};
use crate::blame::{same_key, BlameCacheKey};
use crate::paths::{same_path, same_way};
use crate::recent::{RecentProject, RecentProjects};
use crate::text::same_text;
use crate::toast::FileIssue;
use vstd::prelude::*;
use vstd::std_specs::cmp::{PartialEqSpec, PartialEqSpecImpl};

verus! {

/// Whether two lists of renamed locals are the same.
fn same_spans(a: &Vec<Span>, b: &Vec<Span>) -> (r: bool)
    ensures
        r == (a@ == b@),
{
    if a.len() != b.len() {
        return false;
    }
    let mut i: usize = 0;
    while i < a.len()
        invariant
            i <= a.len(),
            a.len() == b.len(),
            forall|k: int| 0 <= k < i ==> a@[k] == b@[k],
        decreases a.len() - i,
    {
        let x: Span = a[i];
        let y: Span = b[i];
        if x.0 != y.0 || x.1 != y.1 || x.2 != y.2 {
            return false;
        }
        i += 1;
    }
    assert(a@ =~= b@);
    true
}

/// Whether two optional texts are the same.
fn same_opt(a: &Option<String>, b: &Option<String>) -> (r: bool)
    ensures
        r == (text_of(*a) == text_of(*b)),
{
    match (a, b) {
        (Some(x), Some(y)) => same_text(x.as_str(), y.as_str()),
        (None, None) => true,
        _ => false,
    }
}

/// Whether the main window shows the same.
fn same_status(a: &AppStatus, b: &AppStatus) -> (r: bool)
    ensures
        r == (a@ == b@),
{
    match (a, b) {
        (AppStatus::NoFolderOpen, AppStatus::NoFolderOpen) => true,
        (AppStatus::Empty, AppStatus::Empty) => true,
        (AppStatus::NoDuplicates, AppStatus::NoDuplicates) => true,
        (AppStatus::Loaded, AppStatus::Loaded) => true,
        (
            AppStatus::NewerCache { found, supported },
            AppStatus::NewerCache { found: other_found, supported: other_supported },
        ) => *found == *other_found && *supported == *other_supported,
        (AppStatus::Error(x), AppStatus::Error(y)) => same_text(x.as_str(), y.as_str()),
        _ => false,
    }
}

impl PartialEq for OccurrenceView {
    fn eq(&self, other: &Self) -> (r: bool) {
        self.start_line == other.start_line && self.end_line == other.end_line && same_spans(
            &self.alpha_rename_spans,
            &other.alpha_rename_spans,
        ) && same_path(self.path.as_str(), other.path.as_str())
    }
}

impl PartialEqSpecImpl for OccurrenceView {
    open spec fn obeys_eq_spec() -> bool {
        true
    }

    open spec fn eq_spec(&self, other: &Self) -> bool {
        self.start_line == other.start_line && self.end_line == other.end_line
            && self.alpha_rename_spans@ == other.alpha_rename_spans@ && same_way(
            self.path@,
            other.path@,
        )
    }
}

impl Eq for OccurrenceView {

}

impl PartialEq for GroupView {
    fn eq(&self, other: &Self) -> (r: bool) {
        self.id == other.id && self.tier == other.tier && same_text(
            self.label.as_str(),
            other.label.as_str(),
        ) && self.occurrences == other.occurrences && same_opt(&self.language, &other.language)
            && self.group_hash == other.group_hash
    }
}

impl PartialEqSpecImpl for GroupView {
    open spec fn obeys_eq_spec() -> bool {
        true
    }

    open spec fn eq_spec(&self, other: &Self) -> bool {
        self.id == other.id && self.tier == other.tier && self.label@ == other.label@
            && PartialEqSpec::eq_spec(&self.occurrences, &other.occurrences) && text_of(self.language) == text_of(
            other.language,
        ) && self.group_hash == other.group_hash
    }
}

impl Eq for GroupView {

}

impl PartialEq for OccurrenceDismissal {
    fn eq(&self, other: &Self) -> (r: bool) {
        self.dismissed_at == other.dismissed_at && same_path(
            self.path.as_str(),
            other.path.as_str(),
        )
    }
}

impl PartialEqSpecImpl for OccurrenceDismissal {
    open spec fn obeys_eq_spec() -> bool {
        true
    }

    open spec fn eq_spec(&self, other: &Self) -> bool {
        self.dismissed_at == other.dismissed_at && same_way(self.path@, other.path@)
    }
}

impl Eq for OccurrenceDismissal {

}

impl PartialEq for SuppressionView {
    fn eq(&self, other: &Self) -> (r: bool) {
        self.hash == other.hash && same_text(self.hash_hex.as_str(), other.hash_hex.as_str())
            && self.last_group_id == other.last_group_id && self.dismissed_at == other.dismissed_at
            && self.occurrences == other.occurrences && self.occurrence_dismissals
            == other.occurrence_dismissals
    }
}

impl PartialEqSpecImpl for SuppressionView {
    open spec fn obeys_eq_spec() -> bool {
        true
    }

    open spec fn eq_spec(&self, other: &Self) -> bool {
        self.hash == other.hash && self.hash_hex@ == other.hash_hex@ && self.last_group_id
            == other.last_group_id && self.dismissed_at == other.dismissed_at
            && PartialEqSpec::eq_spec(&self.occurrences, &other.occurrences) && PartialEqSpec::eq_spec(&self.occurrence_dismissals, &other.occurrence_dismissals)
    }
}

impl Eq for SuppressionView {

}

impl PartialEq for FolderLoadResult {
    fn eq(&self, other: &Self) -> (r: bool) {
        self.groups == other.groups && self.dismissed == other.dismissed && same_status(
            &self.status,
            &other.status,
        ) && same_path(self.folder.as_str(), other.folder.as_str())
    }
}

impl PartialEqSpecImpl for FolderLoadResult {
    open spec fn obeys_eq_spec() -> bool {
        true
    }

    open spec fn eq_spec(&self, other: &Self) -> bool {
        PartialEqSpec::eq_spec(&self.groups, &other.groups) && PartialEqSpec::eq_spec(&self.dismissed, &other.dismissed)
            && self.status@ == other.status@ && same_way(self.folder@, other.folder@)
    }
}

impl Eq for FolderLoadResult {

}

impl PartialEq for RecentProject {
    fn eq(&self, other: &Self) -> (r: bool) {
        self.opened_at == other.opened_at && same_path(self.path.as_str(), other.path.as_str())
    }
}

impl PartialEqSpecImpl for RecentProject {
    open spec fn obeys_eq_spec() -> bool {
        true
    }

    open spec fn eq_spec(&self, other: &Self) -> bool {
        self.opened_at == other.opened_at && same_way(self.path@, other.path@)
    }
}

impl Eq for RecentProject {

}

impl PartialEq for RecentProjects {
    fn eq(&self, other: &Self) -> (r: bool) {
        self.entries == other.entries
    }
}

impl PartialEqSpecImpl for RecentProjects {
    open spec fn obeys_eq_spec() -> bool {
        true
    }

    open spec fn eq_spec(&self, other: &Self) -> bool {
        PartialEqSpec::eq_spec(&self.entries, &other.entries)
    }
}

impl Eq for RecentProjects {

}

impl PartialEq for FileIssue {
    fn eq(&self, other: &Self) -> (r: bool) {
        self.kind == other.kind && same_text(self.message.as_str(), other.message.as_str())
            && same_path(self.path.as_str(), other.path.as_str())
    }
}

impl PartialEqSpecImpl for FileIssue {
    open spec fn obeys_eq_spec() -> bool {
        true
    }

    open spec fn eq_spec(&self, other: &Self) -> bool {
        self.kind == other.kind && self.message@ == other.message@ && same_way(
            self.path@,
            other.path@,
        )
    }
}

impl Eq for FileIssue {

}

impl PartialEq for BlameCacheKey {
    fn eq(&self, other: &Self) -> (r: bool) {
        self.same(other)
    }
}

impl PartialEqSpecImpl for BlameCacheKey {
    open spec fn obeys_eq_spec() -> bool {
        true
    }

    open spec fn eq_spec(&self, other: &Self) -> bool {
        same_key(*self, *other)
    }
}

impl Eq for BlameCacheKey {

}

} // verus!
