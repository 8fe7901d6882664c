//! The state behind the main window: the open folder, its duplicate groups,
//! and what the user has selected of them.
use crate::blame::BlameCache;
use crate::detail_rows::DetailRowsCache;
use crate::paths::{same_path, same_way};
use crate::recent::RecentProjects;
use crate::text::{
    comes_before, contains, dec, dec_int, hex, holds, is_before, law_holds, lemma_string_order,
    push_dec, push_dec_int, push_hex,
};
use crate::toast::{lemma_filter_step, FileIssue, ToastStack};
use vstd::prelude::*;
use vstd::string::*;

verus! {

/// How a group was found: by equal blocks of text, or by equal syntax trees.
#[derive(Debug, Clone, Copy, PartialEq, Eq, Structural)]
pub enum Tier {
    A,
    B,
}

/// How the groups in the sidebar are sorted.
#[derive(Debug, Clone, Copy, PartialEq, Eq, Structural)]
pub enum SortKey {
    /// As the cache hands them out.
    Impact,
    /// As the cache hands them out.
    Severity,
    /// By their labels. Groups with the same label stay as the cache hands them
    /// out.
    Alphabetical,
}

/// A renamed local in an occurrence: its bytes, and its number.
pub type Span = (usize, usize, u32);

/// One place where a duplicate occurs. Lines count from one, and both ends
/// belong to it.
#[derive(Debug)]
pub struct OccurrenceView {
    /// Path below the open folder, with `/` between components.
    pub path: String,
    pub start_line: i64,
    pub end_line: i64,
    /// The renamed locals. Groups that were found as text have none.
    pub alpha_rename_spans: Vec<Span>,
}

/// What an [`OccurrenceView`] stands for.
#[verifier::ext_equal]
pub struct OccurrenceModel {
    pub path: Seq<char>,
    pub start_line: int,
    pub end_line: int,
    pub spans: Seq<Span>,
}

impl View for OccurrenceView {
    type V = OccurrenceModel;

    open spec fn view(&self) -> OccurrenceModel {
        OccurrenceModel {
            path: self.path@,
            start_line: self.start_line as int,
            end_line: self.end_line as int,
            spans: self.alpha_rename_spans@,
        }
    }
}

impl Clone for OccurrenceView {
    fn clone(&self) -> (r: Self)
        ensures
            r@ == self@,
    {
        let spans: Vec<Span> = copy_spans(&self.alpha_rename_spans);
        OccurrenceView {
            path: self.path.clone(),
            start_line: self.start_line,
            end_line: self.end_line,
            alpha_rename_spans: spans,
        }
    }
}

/// A copy of a list of spans.
pub fn copy_spans(spans: &Vec<Span>) -> (r: Vec<Span>)
    ensures
        r@ == spans@,
{
    let mut out: Vec<Span> = Vec::new();
    let mut i: usize = 0;
    while i < spans.len()
        invariant
            i <= spans.len(),
            out@ == spans@.take(i as int),
        decreases spans.len() - i,
    {
        out.push(spans[i]);
        i += 1;
    }
    assert(spans@.take(i as int) =~= spans@);
    out
}

/// `path:Lstart–end`.
pub open spec fn occurrence_label(o: OccurrenceModel) -> Seq<char> {
    o.path + ":L"@ + dec_int(o.start_line) + "\u{2013}"@ + dec_int(o.end_line)
}

impl OccurrenceView {
    /// The occurrence as `path:Lstart–end`.
    pub fn label(&self) -> (r: String)
        ensures
            r@ == occurrence_label(self@),
    {
        let mut out: String = self.path.clone();
        out.append(":L");
        push_dec_int(&mut out, self.start_line);
        out.append("\u{2013}");
        push_dec_int(&mut out, self.end_line);
        out
    }
}

/// The models of a list of occurrences.
pub open spec fn occurrence_models(list: Seq<OccurrenceView>) -> Seq<OccurrenceModel> {
    Seq::new(list.len(), |i: int| list[i]@)
}

/// A copy of a list of occurrences.
pub fn copy_occurrences(list: &Vec<OccurrenceView>) -> (r: Vec<OccurrenceView>)
    ensures
        occurrence_models(r@) == occurrence_models(list@),
{
    let mut out: Vec<OccurrenceView> = Vec::new();
    let mut i: usize = 0;
    while i < list.len()
        invariant
            i <= list.len(),
            out@.len() == i,
            forall|k: int| 0 <= k < i ==> (#[trigger] out@[k])@ == list@[k]@,
        decreases list.len() - i,
    {
        out.push(list[i].clone());
        i += 1;
    }
    assert(occurrence_models(out@) =~= occurrence_models(list@));
    out
}

/// One duplicate group.
#[derive(Debug)]
pub struct GroupView {
    /// The number of the group in the cache.
    pub id: i64,
    pub tier: Tier,
    /// The text of its row in the sidebar.
    pub label: String,
    pub occurrences: Vec<OccurrenceView>,
    /// The name of its language, if it is known.
    pub language: Option<String>,
    /// The hash of its normalized text, if it is known.
    pub group_hash: Option<u64>,
}

/// What a [`GroupView`] stands for.
#[verifier::ext_equal]
pub struct GroupModel {
    pub id: i64,
    pub tier: Tier,
    pub label: Seq<char>,
    pub occurrences: Seq<OccurrenceModel>,
    pub language: Option<Seq<char>>,
    pub group_hash: Option<u64>,
}

/// The characters of an optional string.
pub open spec fn text_of(s: Option<String>) -> Option<Seq<char>> {
    match s {
        Some(t) => Some(t@),
        None => None,
    }
}

impl View for GroupView {
    type V = GroupModel;

    open spec fn view(&self) -> GroupModel {
        GroupModel {
            id: self.id,
            tier: self.tier,
            label: self.label@,
            occurrences: occurrence_models(self.occurrences@),
            language: text_of(self.language),
            group_hash: self.group_hash,
        }
    }
}

impl Clone for GroupView {
    fn clone(&self) -> (r: Self)
        ensures
            r@ == self@,
    {
        GroupView {
            id: self.id,
            tier: self.tier,
            label: self.label.clone(),
            occurrences: copy_occurrences(&self.occurrences),
            language: match &self.language {
                Some(l) => Some(l.clone()),
                None => None,
            },
            group_hash: self.group_hash,
        }
    }
}

/// The models of a list of groups.
pub open spec fn group_models(list: Seq<GroupView>) -> Seq<GroupModel> {
    Seq::new(list.len(), |i: int| list[i]@)
}

/// One occurrence of a group that the user has dismissed by itself.
#[derive(Debug, Clone)]
pub struct OccurrenceDismissal {
    pub path: String,
    /// When, in seconds since 1970.
    pub dismissed_at: i64,
}

/// One dismissed group.
#[derive(Debug, Clone)]
pub struct SuppressionView {
    /// The hash of its normalized text.
    pub hash: u64,
    /// The hash as 16 hexadecimal digits.
    pub hash_hex: String,
    /// The number that the group had in the cache, if it is known.
    pub last_group_id: Option<i64>,
    /// When it was dismissed, in seconds since 1970.
    pub dismissed_at: i64,
    pub occurrences: Vec<OccurrenceView>,
    pub occurrence_dismissals: Vec<OccurrenceDismissal>,
}

/// What a [`SuppressionView`] stands for.
#[verifier::ext_equal]
pub struct SuppressionModel {
    pub hash: u64,
    pub hash_hex: Seq<char>,
    pub last_group_id: Option<i64>,
    pub dismissed_at: i64,
    pub occurrences: Seq<OccurrenceModel>,
    pub dismissals: Seq<(Seq<char>, i64)>,
}

/// The models of a list of dismissed occurrences.
pub open spec fn dismissal_models(list: Seq<OccurrenceDismissal>) -> Seq<(Seq<char>, i64)> {
    Seq::new(list.len(), |i: int| (list[i].path@, list[i].dismissed_at))
}

impl View for SuppressionView {
    type V = SuppressionModel;

    open spec fn view(&self) -> SuppressionModel {
        SuppressionModel {
            hash: self.hash,
            hash_hex: self.hash_hex@,
            last_group_id: self.last_group_id,
            dismissed_at: self.dismissed_at,
            occurrences: occurrence_models(self.occurrences@),
            dismissals: dismissal_models(self.occurrence_dismissals@),
        }
    }
}

/// The models of a list of dismissed groups.
pub open spec fn suppression_models(list: Seq<SuppressionView>) -> Seq<SuppressionModel> {
    Seq::new(list.len(), |i: int| list[i]@)
}

/// The first `n` characters, or all if there are fewer.
pub open spec fn leading(s: Seq<char>, n: int) -> Seq<char> {
    if s.len() <= n {
        s
    } else {
        s.take(n)
    }
}

/// The first `n` characters of a string.
pub fn first_chars<'a>(s: &'a str, n: usize) -> (r: &'a str)
    ensures
        r@ == leading(s@, n as int),
{
    let len: usize = s.unicode_len();
    if len <= n {
        s
    } else {
        let r: &str = s.substring_char(0, n);
        assert(r@ =~= s@.take(n as int));
        r
    }
}

impl SuppressionView {
    /// The text of the row of a dismissed group.
    pub fn label(&self) -> (r: String)
        ensures
            r@ == "Dismissed block (hash "@ + leading(self.hash_hex@, 12) + "\u{2026})"@,
    {
        let mut out: String = "Dismissed block (hash ".to_owned();
        out.append(first_chars(self.hash_hex.as_str(), 12));
        out.append("\u{2026})");
        out
    }
}

/// What the main window shows.
#[derive(Debug, Clone, PartialEq, Eq)]
pub enum AppStatus {
    /// No folder has been opened yet.
    NoFolderOpen,
    /// The folder has no cache.
    Empty,
    /// The cache of the folder has no groups.
    NoDuplicates,
    /// There are groups to show.
    Loaded,
    /// The cache was written by a newer version.
    NewerCache { found: u32, supported: u32 },
    /// The cache could not be read.
    Error(String),
}

/// What an [`AppStatus`] stands for.
#[verifier::ext_equal]
pub enum StatusModel {
    NoFolderOpen,
    Empty,
    NoDuplicates,
    Loaded,
    NewerCache { found: u32, supported: u32 },
    Error(Seq<char>),
}

impl View for AppStatus {
    type V = StatusModel;

    open spec fn view(&self) -> StatusModel {
        match self {
            AppStatus::NoFolderOpen => StatusModel::NoFolderOpen,
            AppStatus::Empty => StatusModel::Empty,
            AppStatus::NoDuplicates => StatusModel::NoDuplicates,
            AppStatus::Loaded => StatusModel::Loaded,
            AppStatus::NewerCache { found, supported } => StatusModel::NewerCache {
                found: *found,
                supported: *supported,
            },
            AppStatus::Error(msg) => StatusModel::Error(msg@),
        }
    }
}

/// Everything that a newly opened folder brings.
#[derive(Debug, Clone)]
pub struct FolderLoadResult {
    pub folder: String,
    pub groups: Vec<GroupView>,
    pub dismissed: Vec<SuppressionView>,
    pub status: AppStatus,
}

/// What a [`FolderLoadResult`] stands for.
#[verifier::ext_equal]
pub struct LoadModel {
    pub folder: Seq<char>,
    pub groups: Seq<GroupModel>,
    pub dismissed: Seq<SuppressionModel>,
    pub status: StatusModel,
}

impl View for FolderLoadResult {
    type V = LoadModel;

    open spec fn view(&self) -> LoadModel {
        LoadModel {
            folder: self.folder@,
            groups: group_models(self.groups@),
            dismissed: suppression_models(self.dismissed@),
            status: self.status@,
        }
    }
}

/// The sidebar text of a group: `kind name` or `name` for a named group that
/// was found by its syntax tree, else its first occurrence.
pub open spec fn group_text(
    tier: Tier,
    name: Option<Seq<char>>,
    kind: Option<Seq<char>>,
    first: Option<OccurrenceModel>,
) -> Seq<char> {
    match (tier, name) {
        (Tier::B, Some(n)) => match kind {
            Some(k) => k + " "@ + n,
            None => n,
        },
        _ => match first {
            Some(o) => occurrence_label(o),
            None => "(empty group)"@,
        },
    }
}

/// The characters of an optional string slice.
pub open spec fn str_of(s: Option<&str>) -> Option<Seq<char>> {
    match s {
        Some(t) => Some(t@),
        None => None,
    }
}

/// The sidebar text of a group.
pub fn group_label(
    tier: Tier,
    display_name: Option<&str>,
    kind_hint: Option<&str>,
    first: Option<&OccurrenceView>,
) -> (r: String)
    ensures
        r@ == group_text(
            tier,
            str_of(display_name),
            str_of(kind_hint),
            match first {
                Some(o) => Some(o@),
                None => None,
            },
        ),
{
    if tier == Tier::B {
        if let Some(name) = display_name {
            return match kind_hint {
                Some(kind) => {
                    let mut out: String = kind.to_owned();
                    out.append(" ");
                    out.append(name);
                    out
                },
                None => name.to_owned(),
            };
        }
    }
    match first {
        Some(o) => o.label(),
        None => "(empty group)".to_owned(),
    }
}

// ---------------------------------------------------------------------------
// Reading a cache
// ---------------------------------------------------------------------------
/// A group as the cache stores it.
#[derive(Debug)]
pub struct GroupDetail {
    pub id: i64,
    pub tier: Tier,
    pub occurrences: Vec<OccurrenceView>,
    pub language: Option<String>,
}

/// What reading one group of the cache gave: the hash of the group, which may
/// be missing, and the group itself, which may have gone.
#[derive(Debug)]
pub struct GroupRead {
    pub id: i64,
    pub hash: Result<Option<u64>, String>,
    pub detail: Result<Option<GroupDetail>, String>,
}

/// A dismissed group as the cache stores it.
#[derive(Debug)]
pub struct SuppressionRow {
    pub hash: u64,
    pub last_group_id: Option<i64>,
    pub dismissed_at: i64,
    pub occurrences: Vec<OccurrenceView>,
    pub occurrence_dismissals: Vec<OccurrenceDismissal>,
}

/// What reading a cache gave. An error is its message.
#[derive(Debug)]
pub struct CacheRead {
    pub groups: Result<Vec<GroupRead>, String>,
    pub suppressed: Result<Vec<u64>, String>,
    pub suppressions: Result<Vec<SuppressionRow>, String>,
}

/// What opening the cache of a folder gave.
#[derive(Debug)]
pub enum CacheOpen {
    /// There is no cache.
    Missing,
    /// The cache was written by a newer version.
    Newer { found: u32, supported: u32 },
    /// The cache could not be opened, with the message of the error.
    Failed(String),
    /// The cache was opened and read.
    Opened(CacheRead),
}

/// The number in decimal, between two texts.
pub open spec fn numbered(before: Seq<char>, n: int, between: Seq<char>, after: Seq<char>) -> Seq<
    char,
> {
    before + dec_int(n) + between + after
}

/// The group that a row of the cache becomes.
pub open spec fn shown_group(hash: Option<u64>, d: GroupDetail) -> GroupModel {
    let occurrences = occurrence_models(d.occurrences@);
    GroupModel {
        id: d.id,
        tier: d.tier,
        label: group_text(
            d.tier,
            None,
            None,
            if occurrences.len() > 0 {
                Some(occurrences[0])
            } else {
                None
            },
        ),
        occurrences,
        language: text_of(d.language),
        group_hash: hash,
    }
}

/// The group was dismissed.
pub open spec fn is_suppressed(hash: Option<u64>, suppressed: Seq<u64>) -> bool {
    match hash {
        Some(h) => suppressed.contains(h),
        None => false,
    }
}

/// The groups to show among the first `n` that were read, or the message of
/// the first error. Dismissed groups and groups that have gone are left out,
/// and nothing is asked of a dismissed group but its hash.
pub open spec fn shown_groups(reads: Seq<GroupRead>, suppressed: Seq<u64>, n: int) -> Result<
    Seq<GroupModel>,
    Seq<char>,
>
    decreases n,
{
    if n <= 0 {
        Ok(Seq::empty())
    } else {
        let read = reads[n - 1];
        match shown_groups(reads, suppressed, n - 1) {
            Err(e) => Err(e),
            Ok(before) => match read.hash {
                Err(e) => Err(
                    numbered("failed to read hash for group "@, read.id as int, ": "@, e@),
                ),
                Ok(hash) => if is_suppressed(hash, suppressed) {
                    Ok(before)
                } else {
                    match read.detail {
                        Err(e) => Err(
                            numbered("failed to read group "@, read.id as int, ": "@, e@),
                        ),
                        Ok(None) => Ok(before),
                        Ok(Some(d)) => Ok(before.push(shown_group(hash, d))),
                    }
                },
            },
        }
    }
}

/// The dismissed group that a row of the cache becomes.
pub open spec fn shown_suppression(row: SuppressionRow) -> SuppressionModel {
    SuppressionModel {
        hash: row.hash,
        hash_hex: hex(row.hash as nat, 16),
        last_group_id: row.last_group_id,
        dismissed_at: row.dismissed_at,
        occurrences: occurrence_models(row.occurrences@),
        dismissals: dismissal_models(row.occurrence_dismissals@),
    }
}

/// A folder whose cache could not be read.
pub open spec fn failed_load(folder: Seq<char>, message: Seq<char>) -> LoadModel {
    LoadModel {
        folder,
        groups: Seq::empty(),
        dismissed: Seq::empty(),
        status: StatusModel::Error(message),
    }
}

/// What the window gets from a cache that was read. Any error leaves it with
/// that error alone.
pub open spec fn loaded(folder: Seq<char>, read: CacheRead) -> LoadModel {
    match read.groups {
        Err(e) => failed_load(folder, "failed to read cache: "@ + e@),
        Ok(reads) => match read.suppressed {
            Err(e) => failed_load(folder, "failed to read suppressions: "@ + e@),
            Ok(suppressed) => match shown_groups(
                reads@,
                suppressed@,
                reads@.len() as int,
            ) {
                Err(message) => failed_load(folder, message),
                Ok(groups) => match read.suppressions {
                    Err(e) => failed_load(folder, "failed to read suppressions: "@ + e@),
                    Ok(rows) => LoadModel {
                        folder,
                        groups,
                        dismissed: Seq::new(rows@.len(), |i: int| shown_suppression(rows@[i])),
                        status: if groups.len() == 0 {
                            StatusModel::NoDuplicates
                        } else {
                            StatusModel::Loaded
                        },
                    },
                },
            },
        },
    }
}

/// What the window gets from a folder.
pub open spec fn opened(folder: Seq<char>, open: CacheOpen) -> LoadModel {
    match open {
        CacheOpen::Missing => LoadModel {
            folder,
            groups: Seq::empty(),
            dismissed: Seq::empty(),
            status: StatusModel::Empty,
        },
        CacheOpen::Newer { found, supported } => LoadModel {
            folder,
            groups: Seq::empty(),
            dismissed: Seq::empty(),
            status: StatusModel::NewerCache { found, supported },
        },
        CacheOpen::Failed(message) => failed_load(folder, message@),
        CacheOpen::Opened(read) => loaded(folder, read),
    }
}

/// What the window gets from a folder, given what opening its cache gave.
pub fn load_folder(folder: &str, open: CacheOpen) -> (r: FolderLoadResult)
    ensures
        r@ == opened(folder@, open),
{
    match open {
        CacheOpen::Missing => without_groups(folder, AppStatus::Empty),
        CacheOpen::Newer { found, supported } => without_groups(
            folder,
            AppStatus::NewerCache { found, supported },
        ),
        CacheOpen::Failed(message) => without_groups(folder, AppStatus::Error(message)),
        CacheOpen::Opened(read) => materialize_from_cache(folder, read),
    }
}

/// A folder without anything to show.
fn without_groups(folder: &str, status: AppStatus) -> (r: FolderLoadResult)
    ensures
        r@ == (LoadModel {
            folder: folder@,
            groups: Seq::empty(),
            dismissed: Seq::empty(),
            status: status@,
        }),
{
    let r = FolderLoadResult {
        folder: folder.to_owned(),
        groups: Vec::new(),
        dismissed: Vec::new(),
        status,
    };
    assert(r@.groups =~= Seq::empty());
    assert(r@.dismissed =~= Seq::empty());
    r
}

/// `before` and then `after`.
fn joined(before: &str, after: &str) -> (r: String)
    ensures
        r@ == before@ + after@,
{
    let mut out: String = before.to_owned();
    out.append(after);
    out
}

/// `before`, the number, `: ` and `after`.
fn message_for(before: &str, id: i64, after: &str) -> (r: String)
    ensures
        r@ == numbered(before@, id as int, ": "@, after@),
{
    let mut out: String = before.to_owned();
    push_dec_int(&mut out, id);
    out.append(": ");
    out.append(after);
    out
}

/// Whether the group was dismissed.
fn hash_suppressed(hash: Option<u64>, suppressed: &Vec<u64>) -> (r: bool)
    ensures
        r == is_suppressed(hash, suppressed@),
{
    match hash {
        Some(h) => {
            let mut i: usize = 0;
            while i < suppressed.len()
                invariant
                    i <= suppressed.len(),
                    hash == Some(h),
                    forall|k: int| 0 <= k < i ==> suppressed@[k] != h,
                decreases suppressed.len() - i,
            {
                if suppressed[i] == h {
                    assert(suppressed@[i as int] == h);
                    return true;
                }
                i += 1;
            }
            false
        },
        None => false,
    }
}

/// The group that a row of the cache becomes.
fn group_from_detail(hash: Option<u64>, d: &GroupDetail) -> (r: GroupView)
    ensures
        r@ == shown_group(hash, *d),
{
    let occurrences: Vec<OccurrenceView> = copy_occurrences(&d.occurrences);
    let ghost models = occurrence_models(d.occurrences@);
    let label: String = if occurrences.len() > 0 {
        assert(occurrence_models(occurrences@)[0] == occurrences@[0]@);
        group_label(d.tier, None, None, Some(&occurrences[0]))
    } else {
        assert(models.len() == occurrence_models(occurrences@).len());
        group_label(d.tier, None, None, None)
    };
    assert(models.len() == occurrence_models(occurrences@).len());
    GroupView {
        id: d.id,
        tier: d.tier,
        label,
        occurrences,
        language: match &d.language {
            Some(l) => Some(l.clone()),
            None => None,
        },
        group_hash: hash,
    }
}

/// The dismissed group that a row of the cache becomes.
fn suppression_from_row(row: &SuppressionRow) -> (r: SuppressionView)
    ensures
        r@ == shown_suppression(*row),
{
    let mut hash_hex: String = String::new();
    push_hex(&mut hash_hex, row.hash, 16);
    assert(hash_hex@ =~= hex(row.hash as nat, 16));
    let mut dismissals: Vec<OccurrenceDismissal> = Vec::new();
    let mut i: usize = 0;
    while i < row.occurrence_dismissals.len()
        invariant
            i <= row.occurrence_dismissals.len(),
            dismissals@.len() == i,
            forall|k: int|
                0 <= k < i ==> (#[trigger] dismissals@[k]).path@
                    == row.occurrence_dismissals@[k].path@ && dismissals@[k].dismissed_at
                    == row.occurrence_dismissals@[k].dismissed_at,
        decreases row.occurrence_dismissals.len() - i,
    {
        let d = &row.occurrence_dismissals[i];
        dismissals.push(
            OccurrenceDismissal { path: d.path.clone(), dismissed_at: d.dismissed_at },
        );
        i += 1;
    }
    assert(dismissal_models(dismissals@) =~= dismissal_models(row.occurrence_dismissals@));
    SuppressionView {
        hash: row.hash,
        hash_hex,
        last_group_id: row.last_group_id,
        dismissed_at: row.dismissed_at,
        occurrences: copy_occurrences(&row.occurrences),
        occurrence_dismissals: dismissals,
    }
}

/// The groups to show among those that were read.
fn collect_groups(reads: &Vec<GroupRead>, suppressed: &Vec<u64>) -> (r: Result<
    Vec<GroupView>,
    String,
>)
    ensures
        match r {
            Ok(groups) => shown_groups(reads@, suppressed@, reads@.len() as int) == Ok::<
                Seq<GroupModel>,
                Seq<char>,
            >(group_models(groups@)),
            Err(message) => shown_groups(reads@, suppressed@, reads@.len() as int) == Err::<
                Seq<GroupModel>,
                Seq<char>,
            >(message@),
        },
{
    let mut groups: Vec<GroupView> = Vec::new();
    let mut i: usize = 0;
    assert(group_models(groups@) =~= Seq::empty());
    while i < reads.len()
        invariant
            i <= reads.len(),
            shown_groups(reads@, suppressed@, i as int) == Ok::<Seq<GroupModel>, Seq<char>>(
                group_models(groups@),
            ),
        decreases reads.len() - i,
    {
        let read = &reads[i];
        let ghost before = group_models(groups@);
        match &read.hash {
            Err(e) => {
                let message: String = message_for(
                    "failed to read hash for group ",
                    read.id,
                    e.as_str(),
                );
                proof {
                    lemma_error_stays(reads@, suppressed@, i + 1, reads@.len() as int);
                }
                return Err(message);
            },
            Ok(hash) => {
                if !hash_suppressed(*hash, suppressed) {
                    match &read.detail {
                        Err(e) => {
                            let message: String = message_for(
                                "failed to read group ",
                                read.id,
                                e.as_str(),
                            );
                            proof {
                                lemma_error_stays(reads@, suppressed@, i + 1, reads@.len() as int);
                            }
                            return Err(message);
                        },
                        Ok(None) => {},
                        Ok(Some(d)) => {
                            let group: GroupView = group_from_detail(*hash, d);
                            groups.push(group);
                            assert(group_models(groups@) =~= before.push(group@));
                        },
                    }
                }
            },
        }
        i += 1;
    }
    Ok(groups)
}

/// The first error is the one that is shown.
proof fn lemma_error_stays(reads: Seq<GroupRead>, suppressed: Seq<u64>, n: int, m: int)
    requires
        n <= m,
        shown_groups(reads, suppressed, n) is Err,
    ensures
        shown_groups(reads, suppressed, m) == shown_groups(reads, suppressed, n),
    decreases m - n,
{
    if n < m {
        lemma_error_stays(reads, suppressed, n, m - 1);
    }
}

/// What the window gets from a cache that was read.
fn materialize_from_cache(folder: &str, read: CacheRead) -> (r: FolderLoadResult)
    ensures
        r@ == loaded(folder@, read),
{
    let reads: &Vec<GroupRead> = match &read.groups {
        Ok(reads) => reads,
        Err(e) => {
            return without_groups(
                folder,
                AppStatus::Error(joined("failed to read cache: ", e.as_str())),
            );
        },
    };
    let suppressed: &Vec<u64> = match &read.suppressed {
        Ok(hashes) => hashes,
        Err(e) => {
            return without_groups(
                folder,
                AppStatus::Error(joined("failed to read suppressions: ", e.as_str())),
            );
        },
    };
    let groups: Vec<GroupView> = match collect_groups(reads, suppressed) {
        Ok(groups) => groups,
        Err(message) => {
            return without_groups(folder, AppStatus::Error(message));
        },
    };
    let rows: &Vec<SuppressionRow> = match &read.suppressions {
        Ok(rows) => rows,
        Err(e) => {
            return without_groups(
                folder,
                AppStatus::Error(joined("failed to read suppressions: ", e.as_str())),
            );
        },
    };
    let mut dismissed: Vec<SuppressionView> = Vec::new();
    let mut i: usize = 0;
    while i < rows.len()
        invariant
            i <= rows.len(),
            dismissed@.len() == i,
            forall|k: int| 0 <= k < i ==> (#[trigger] dismissed@[k])@ == shown_suppression(rows@[k]),
        decreases rows.len() - i,
    {
        dismissed.push(suppression_from_row(&rows[i]));
        i += 1;
    }
    let status: AppStatus = if groups.len() == 0 {
        AppStatus::NoDuplicates
    } else {
        AppStatus::Loaded
    };
    let ghost models = Seq::new(rows@.len(), |k: int| shown_suppression(rows@[k]));
    assert(suppression_models(dismissed@) =~= models);
    assert(group_models(groups@).len() == groups@.len());
    FolderLoadResult { folder: folder.to_owned(), groups, dismissed, status }
}

/// No group that is shown is one that was dismissed.
pub proof fn law_dismissed_groups_are_hidden(
    reads: Seq<GroupRead>,
    suppressed: Seq<u64>,
    n: int,
    i: int,
)
    requires
        0 <= n <= reads.len(),
        shown_groups(reads, suppressed, n) is Ok,
        0 <= i < shown_groups(reads, suppressed, n)->Ok_0.len(),
    ensures
        !is_suppressed(shown_groups(reads, suppressed, n)->Ok_0[i].group_hash, suppressed),
    decreases n,
{
    let before = shown_groups(reads, suppressed, n - 1)->Ok_0;
    if i < before.len() {
        law_dismissed_groups_are_hidden(reads, suppressed, n - 1, i);
    }
}

/// A folder that was loaded shows every group that was read and is neither gone
/// nor dismissed, whichever way it was found: once for each time it was read, in
/// the order of the cache, with its number, occurrences, language and hash. It
/// has no duplicates exactly where there is no such group.
pub proof fn law_groups_are_shown(folder: Seq<char>, open: CacheOpen)
    requires
        open is Opened,
        !(opened(folder, open).status is Error),
    ensures
        open->Opened_0.groups is Ok && open->Opened_0.suppressed is Ok,
        ({
            let suppressed = open->Opened_0.suppressed->Ok_0@;
            let kept = open->Opened_0.groups->Ok_0@.filter(
                |r: GroupRead|
                    r.detail is Ok && r.detail->Ok_0 is Some && !(r.hash is Ok && r.hash->Ok_0 is Some
                        && suppressed.contains(r.hash->Ok_0->0)),
            );
            let shown = opened(folder, open).groups;
            &&& shown.len() == kept.len()
            &&& opened(folder, open).folder == folder
            &&& kept.len() == 0 <==> opened(folder, open).status is NoDuplicates
            &&& kept.len() > 0 <==> opened(folder, open).status is Loaded
            &&& forall|k: int|
                #![trigger kept[k]]
                #![trigger shown[k]]
                0 <= k < kept.len() ==> {
                    let d = kept[k].detail->Ok_0->0;
                    &&& kept[k].hash is Ok
                    &&& shown[k].group_hash == kept[k].hash->Ok_0
                    &&& shown[k].id == d.id
                    &&& shown[k].tier == d.tier
                    &&& shown[k].language == text_of(d.language)
                    &&& shown[k].occurrences.len() == d.occurrences@.len()
                    &&& shown[k].label == if d.occurrences@.len() > 0 {
                        occurrence_label(d.occurrences@[0]@)
                    } else {
                        "(empty group)"@
                    }
                    &&& forall|j: int|
                        0 <= j < d.occurrences@.len() ==> (#[trigger] shown[k].occurrences[j])
                            == d.occurrences@[j]@
                }
        }),
{
    let read = open->Opened_0;
    let reads = read.groups->Ok_0@;
    lemma_groups_shown(reads, read.suppressed->Ok_0@, reads.len() as int);
    assert(reads.take(reads.len() as int) =~= reads);
}

/// The groups to show among the first `n` that were read.
proof fn lemma_groups_shown(reads: Seq<GroupRead>, suppressed: Seq<u64>, n: int)
    requires
        0 <= n <= reads.len(),
        shown_groups(reads, suppressed, n) is Ok,
    ensures
        ({
            let kept = reads.take(n).filter(
                |r: GroupRead|
                    r.detail is Ok && r.detail->Ok_0 is Some && !(r.hash is Ok && r.hash->Ok_0 is Some
                        && suppressed.contains(r.hash->Ok_0->0)),
            );
            let shown = shown_groups(reads, suppressed, n)->Ok_0;
            &&& shown.len() == kept.len()
            &&& forall|k: int|
                #![trigger kept[k]]
                #![trigger shown[k]]
                0 <= k < kept.len() ==> kept[k].hash is Ok && shown[k] == shown_group(
                    kept[k].hash->Ok_0,
                    kept[k].detail->Ok_0->0,
                )
        }),
    decreases n,
{
    reveal(Seq::filter);
    if n > 0 {
        lemma_groups_shown(reads, suppressed, n - 1);
        let now = reads.take(n);
        let pred = |r: GroupRead|
            r.detail is Ok && r.detail->Ok_0 is Some && !(r.hash is Ok && r.hash->Ok_0 is Some
                && suppressed.contains(r.hash->Ok_0->0));
        let r = reads[n - 1];
        let before = now.drop_last().filter(pred);
        assert(now.drop_last() =~= reads.take(n - 1));
        assert(now.last() == r);
        assert(now.filter(pred) == if pred(r) {
            before.push(r)
        } else {
            before
        });
        let shown = shown_groups(reads, suppressed, n)->Ok_0;
        let old_shown = shown_groups(reads, suppressed, n - 1)->Ok_0;
        assert(r.hash is Ok);
        assert(is_suppressed(r.hash->Ok_0, suppressed) == (r.hash->Ok_0 is Some
            && suppressed.contains(r.hash->Ok_0->0)));
        assert forall|k: int|
            #![trigger now.filter(pred)[k]]
            #![trigger shown[k]]
            0 <= k < now.filter(pred).len() implies now.filter(pred)[k].hash is Ok && shown[k]
            == shown_group(
            now.filter(pred)[k].hash->Ok_0,
            now.filter(pred)[k].detail->Ok_0->0,
        ) by {
            if k < before.len() {
                assert(shown[k] == old_shown[k]);
            }
        }
    }
}

/// Loading fails exactly where something could not be read: the groups, the
/// dismissed hashes, the dismissed groups, the hash of a group, or a group that
/// is not dismissed.
pub proof fn law_loading_fails_on_errors(folder: Seq<char>, read: CacheRead)
    ensures
        opened(folder, CacheOpen::Opened(read)).status is Error <==> {
            ||| read.groups is Err
            ||| read.suppressed is Err
            ||| read.suppressions is Err
            ||| exists|i: int|
                0 <= i < read.groups->Ok_0@.len() && {
                    let r = #[trigger] read.groups->Ok_0@[i];
                    r.hash is Err || (r.detail is Err && !(r.hash->Ok_0 is Some
                        && read.suppressed->Ok_0@.contains(r.hash->Ok_0->0)))
                }
        },
        opened(folder, CacheOpen::Opened(read)).status is Error ==> opened(
            folder,
            CacheOpen::Opened(read),
        ).groups.len() == 0 && opened(folder, CacheOpen::Opened(read)).dismissed.len() == 0,
{
    if read.groups is Ok && read.suppressed is Ok {
        let reads = read.groups->Ok_0@;
        lemma_shown_or_error(reads, read.suppressed->Ok_0@, reads.len() as int);
    }
}

/// The groups can be shown where each of them could be read.
proof fn lemma_shown_or_error(reads: Seq<GroupRead>, suppressed: Seq<u64>, n: int)
    requires
        0 <= n <= reads.len(),
    ensures
        shown_groups(reads, suppressed, n) is Err <==> exists|i: int|
            0 <= i < n && {
                let r = #[trigger] reads[i];
                r.hash is Err || (r.detail is Err && !(r.hash->Ok_0 is Some && suppressed.contains(
                    r.hash->Ok_0->0,
                )))
            },
    decreases n,
{
    if n > 0 {
        lemma_shown_or_error(reads, suppressed, n - 1);
        let r = reads[n - 1];
    }
}

/// Where the groups or the dismissed hashes cannot be read, that is what is said.
pub proof fn law_unread_cache(folder: Seq<char>, read: CacheRead)
    ensures
        read.groups is Err ==> opened(folder, CacheOpen::Opened(read)).status
            == StatusModel::Error("failed to read cache: "@ + read.groups->Err_0@),
        read.groups is Ok && read.suppressed is Err ==> opened(
            folder,
            CacheOpen::Opened(read),
        ).status == StatusModel::Error(
            "failed to read suppressions: "@ + read.suppressed->Err_0@,
        ),
{
}

/// Where a group is the first that cannot be read, its number and the cause are
/// what is said.
pub proof fn law_unread_group(folder: Seq<char>, read: CacheRead, i: int)
    requires
        read.groups is Ok,
        read.suppressed is Ok,
        0 <= i < read.groups->Ok_0@.len(),
        forall|k: int|
            0 <= k < i ==> {
                let r = #[trigger] read.groups->Ok_0@[k];
                r.hash is Ok && r.detail is Ok
            },
        read.groups->Ok_0@[i].hash is Err || (read.groups->Ok_0@[i].detail is Err && (
        read.groups->Ok_0@[i].hash->Ok_0 is None || !read.suppressed->Ok_0@.contains(
            read.groups->Ok_0@[i].hash->Ok_0->0,
        ))),
    ensures
        ({
            let r = read.groups->Ok_0@[i];
            opened(folder, CacheOpen::Opened(read)).status == StatusModel::Error(
                if r.hash is Err {
                    "failed to read hash for group "@ + dec_int(r.id as int) + ": "@
                        + r.hash->Err_0@
                } else {
                    "failed to read group "@ + dec_int(r.id as int) + ": "@ + r.detail->Err_0@
                },
            )
        }),
{
    let reads = read.groups->Ok_0@;
    lemma_first_error(reads, read.suppressed->Ok_0@, i, reads.len() as int);
}

/// The first error is the one that counts.
proof fn lemma_first_error(reads: Seq<GroupRead>, suppressed: Seq<u64>, i: int, n: int)
    requires
        0 <= i < n <= reads.len(),
        forall|k: int|
            0 <= k < i ==> {
                let r = #[trigger] reads[k];
                r.hash is Ok && r.detail is Ok
            },
        reads[i].hash is Err || (reads[i].detail is Err && (reads[i].hash->Ok_0 is None
            || !suppressed.contains(reads[i].hash->Ok_0->0))),
    ensures
        shown_groups(reads, suppressed, n) == Err::<Seq<GroupModel>, Seq<char>>(
            if reads[i].hash is Err {
                "failed to read hash for group "@ + dec_int(reads[i].id as int) + ": "@
                    + reads[i].hash->Err_0@
            } else {
                "failed to read group "@ + dec_int(reads[i].id as int) + ": "@
                    + reads[i].detail->Err_0@
            },
        ),
    decreases n,
{
    if i == n - 1 {
        lemma_shown_or_error(reads, suppressed, n - 1);
    } else {
        lemma_first_error(reads, suppressed, i, n - 1);
    }
}

/// Where only the dismissed groups cannot be read, that is what is said.
pub proof fn law_unread_dismissed_groups(folder: Seq<char>, read: CacheRead)
    requires
        read.groups is Ok,
        read.suppressed is Ok,
        read.suppressions is Err,
        forall|k: int|
            0 <= k < read.groups->Ok_0@.len() ==> {
                let r = #[trigger] read.groups->Ok_0@[k];
                r.hash is Ok && r.detail is Ok
            },
    ensures
        opened(folder, CacheOpen::Opened(read)).status == StatusModel::Error(
            "failed to read suppressions: "@ + read.suppressions->Err_0@,
        ),
{
    let reads = read.groups->Ok_0@;
    lemma_shown_or_error(reads, read.suppressed->Ok_0@, reads.len() as int);
}

/// Every dismissed group of the cache is listed, in its order and with all that
/// is known of it.
pub proof fn law_dismissed_groups_are_listed(folder: Seq<char>, open: CacheOpen)
    requires
        open is Opened,
        !(opened(folder, open).status is Error),
    ensures
        open->Opened_0.suppressions is Ok,
        ({
            let rows = open->Opened_0.suppressions->Ok_0@;
            let listed = opened(folder, open).dismissed;
            &&& listed.len() == rows.len()
            &&& forall|k: int|
                0 <= k < rows.len() ==> {
                    &&& (#[trigger] listed[k]).hash == rows[k].hash
                    &&& listed[k].hash_hex == hex(rows[k].hash as nat, 16)
                    &&& listed[k].last_group_id == rows[k].last_group_id
                    &&& listed[k].dismissed_at == rows[k].dismissed_at
                    &&& listed[k].occurrences == occurrence_models(rows[k].occurrences@)
                    &&& listed[k].dismissals == dismissal_models(rows[k].occurrence_dismissals@)
                }
        }),
{
}

/// A folder without a cache is empty, one whose cache is too new says so, and
/// one whose cache cannot be opened gives the error. None of them has groups.
pub proof fn law_unopened_folders(folder: Seq<char>, open: CacheOpen)
    requires
        !(open is Opened),
    ensures
        opened(folder, open).folder == folder,
        opened(folder, open).groups.len() == 0,
        opened(folder, open).dismissed.len() == 0,
        opened(folder, open).status == match open {
            CacheOpen::Missing => StatusModel::Empty,
            CacheOpen::Newer { found, supported } => StatusModel::NewerCache { found, supported },
            CacheOpen::Failed(message) => StatusModel::Error(message@),
            CacheOpen::Opened(_) => StatusModel::NoFolderOpen,
        },
{
}

// ---------------------------------------------------------------------------
// The state of the window
// ---------------------------------------------------------------------------
/// A part of the window that can have the focus.
#[derive(Debug, Clone, Copy, PartialEq, Eq, Structural)]
pub enum Pane {
    Sidebar,
    Detail,
}

/// How far a scan is. Times are in milliseconds.
#[derive(Debug, Clone, Copy, PartialEq, Eq, Structural)]
pub enum ScanState {
    Idle,
    /// It runs since `started_at`.
    Running { started_at: u64 },
    /// It was asked at `started_at` to stop.
    Cancelling { started_at: u64 },
    /// It is done, and its result is announced.
    Completed { group_count: usize, file_count: usize, duration: u64 },
}

impl ScanState {
    /// Whether a scan runs that was not asked to stop.
    pub fn is_running(self) -> (r: bool)
        ensures
            r == (self is Running),
    {
        match self {
            ScanState::Running { .. } => true,
            _ => false,
        }
    }

    /// Whether a scan runs.
    pub fn is_active(self) -> (r: bool)
        ensures
            r == (self is Running || self is Cancelling),
    {
        match self {
            ScanState::Running { .. } => true,
            ScanState::Cancelling { .. } => true,
            _ => false,
        }
    }
}

/// A scan that was begun.
#[derive(Debug, Clone, Copy, PartialEq, Eq, Structural)]
pub struct ScanHandles {
    pub started_at: u64,
}

/// A time in milliseconds as seconds with one digit behind the point.
pub open spec fn elapsed_text(millis: u64) -> Seq<char> {
    dec(millis as nat / 1000) + "."@ + dec(millis as nat % 1000 / 100) + "s"@
}

/// A time in milliseconds as seconds with one digit behind the point.
pub fn format_elapsed(millis: u64) -> (r: String)
    ensures
        r@ == elapsed_text(millis),
{
    let mut out: String = String::new();
    push_dec(&mut out, millis / 1000);
    out.append(".");
    push_dec(&mut out, millis % 1000 / 100);
    out.append("s");
    assert(out@ =~= elapsed_text(millis));
    out
}

/// What announces the result of a scan that took some milliseconds. Seconds that
/// were begun do not count.
pub open spec fn completion_text(group_count: usize, file_count: usize, millis: u64) -> Seq<char> {
    "Scan complete \u{2014} "@ + dec(group_count as nat) + " groups across "@ + dec(
        file_count as nat,
    ) + " files in "@ + dec(millis as nat / 1000) + "s."@
}

/// What announces the result of a scan.
pub fn format_completion_banner(group_count: usize, file_count: usize, millis: u64) -> (r: String)
    ensures
        r@ == completion_text(group_count, file_count, millis),
{
    let mut out: String = "Scan complete \u{2014} ".to_owned();
    push_dec(&mut out, group_count as u64);
    out.append(" groups across ");
    push_dec(&mut out, file_count as u64);
    out.append(" files in ");
    push_dec(&mut out, millis / 1000);
    out.append("s.");
    assert(out@ =~= completion_text(group_count, file_count, millis));
    out
}

/// How much the detail pane shows.
#[derive(Debug, Clone, Copy, PartialEq, Eq, Structural)]
pub struct DetailConfig {
    /// How many lines around an occurrence.
    pub context_lines: usize,
}

/// How many lines around an occurrence are shown, unless something else is set.
pub const DEFAULT_CONTEXT_LINES: usize = 3;

/// Says that a recent project is gone.
#[derive(Debug, Clone)]
pub struct RecentBanner {
    pub path: String,
}

/// Says why no editor was started.
#[derive(Debug, Clone)]
pub struct EditorBanner {
    pub message: String,
}

/// Says that the configuration could not be read.
#[derive(Debug, Clone)]
pub struct StartupError {
    pub path: String,
    pub message: String,
}

/// The state of the window.
#[derive(Debug, Clone)]
pub struct AppState {
    pub current_folder: Option<String>,
    pub groups: Vec<GroupView>,
    pub dismissed: Vec<SuppressionView>,
    pub selected_group: Option<i64>,
    pub status: AppStatus,
    /// Whether the list of dismissed groups is open.
    pub dismissed_expanded: bool,
    /// The groups that a running scan has found so far.
    pub groups_streaming: Vec<GroupView>,
    pub search_query: String,
    pub sort_key: SortKey,
    pub sort_popup_open: bool,
    pub focused_pane: Pane,
    pub sidebar_hidden: bool,
    pub scan_state: ScanState,
    /// The selected occurrences, by group and number, each once.
    pub selected_occurrence_indices: Vec<(i64, usize)>,
    /// The collapsed occurrences, by group and number, each once.
    pub collapsed_occurrences: Vec<(i64, usize)>,
    /// The occurrences dismissed in this session, by group hash and path, each
    /// once.
    pub session_occurrence_dismissed: Vec<(u64, String)>,
    pub detail_config: DetailConfig,
    pub detail_rows_cache: Option<DetailRowsCache>,
    pub blame_cache: BlameCache,
    pub recent_projects: RecentProjects,
    pub recent_banner: Option<RecentBanner>,
    pub editor_banner: Option<EditorBanner>,
    pub preferences_open: bool,
    pub startup_error: Option<StartupError>,
    pub toasts: ToastStack,
    pub scan_issues: Vec<FileIssue>,
    pub scan_issues_open: bool,
}

/// An occurrence was dismissed in this session.
pub open spec fn is_dismissed_now(
    set: Seq<(u64, String)>,
    hash: Option<u64>,
    path: Seq<char>,
) -> bool {
    match hash {
        Some(h) => exists|i: int|
            0 <= i < set.len() && (#[trigger] set[i]).0 == h && same_way(set[i].1@, path),
        None => false,
    }
}

/// No occurrence was dismissed twice: no two entries have the same hash and lead
/// the same way.
pub open spec fn dismissed_once(set: Seq<(u64, String)>) -> bool {
    forall|i: int, j: int|
        0 <= i < j < set.len() ==> !((#[trigger] set[i]).0 == (#[trigger] set[j]).0 && same_way(
            set[i].1@,
            set[j].1@,
        ))
}

/// The occurrences of a group that were not dismissed in this session, among
/// the first `n`.
pub open spec fn visible_upto(g: GroupModel, set: Seq<(u64, String)>, n: int) -> Seq<
    OccurrenceModel,
>
    decreases n,
{
    if n <= 0 {
        Seq::empty()
    } else {
        let before = visible_upto(g, set, n - 1);
        if is_dismissed_now(set, g.group_hash, g.occurrences[n - 1].path) {
            before
        } else {
            before.push(g.occurrences[n - 1])
        }
    }
}

/// The occurrences of a group that were not dismissed in this session.
pub open spec fn visible_in(g: GroupModel, set: Seq<(u64, String)>) -> Seq<OccurrenceModel> {
    visible_upto(g, set, g.occurrences.len() as int)
}

/// The first of the groups from `i` on that has a number.
pub open spec fn group_from(groups: Seq<GroupView>, id: i64, i: int) -> Option<GroupModel>
    decreases groups.len() - i,
{
    if i < 0 || i >= groups.len() {
        None
    } else if groups[i].id == id {
        Some(groups[i]@)
    } else {
        group_from(groups, id, i + 1)
    }
}

/// The first of the dismissed groups from `i` on that had a number.
pub open spec fn dismissed_from(list: Seq<SuppressionView>, id: i64, i: int) -> Option<
    SuppressionModel,
>
    decreases list.len() - i,
{
    if i < 0 || i >= list.len() {
        None
    } else if list[i].last_group_id == Some(id) {
        Some(list[i]@)
    } else {
        dismissed_from(list, id, i + 1)
    }
}

/// The occurrences of the selected group: those that were not dismissed in this
/// session, or all those of a dismissed group. Without such a group there are
/// none.
pub open spec fn occurrences_shown(s: AppState) -> Seq<OccurrenceModel> {
    match s.selected_group {
        Some(id) => match group_from(s.groups@, id, 0) {
            Some(g) => visible_in(g, s.session_occurrence_dismissed@),
            None => match dismissed_from(s.dismissed@, id, 0) {
                Some(d) => d.occurrences,
                None => Seq::empty(),
            },
        },
        None => Seq::empty(),
    }
}

/// A group goes with a search: its row holds the text.
pub open spec fn goes_with(label: Seq<char>, query: Seq<char>) -> bool {
    holds(label, query)
}

/// Those of the first `n` groups that go with a search.
pub open spec fn found_upto(groups: Seq<GroupView>, query: Seq<char>, n: int) -> Seq<GroupModel>
    decreases n,
{
    if n <= 0 {
        Seq::empty()
    } else {
        let before = found_upto(groups, query, n - 1);
        if goes_with(groups[n - 1].label@, query) {
            before.push(groups[n - 1]@)
        } else {
            before
        }
    }
}

/// The first place from `i` on at which a group stands whose label comes after
/// the given one, or the end.
pub open spec fn place_for(list: Seq<GroupModel>, label: Seq<char>, i: int) -> int
    decreases list.len() - i,
{
    if i < 0 || i >= list.len() {
        list.len() as int
    } else if comes_before(label, list[i].label) {
        i
    } else {
        place_for(list, label, i + 1)
    }
}

/// Groups sorted by their labels.
pub open spec fn by_label(list: Seq<GroupModel>) -> Seq<GroupModel>
    decreases list.len(),
{
    if list.len() == 0 {
        list
    } else {
        let before = by_label(list.drop_last());
        before.insert(place_for(before, list.last().label, 0), list.last())
    }
}

/// Groups in the order of a key.
pub open spec fn ordered(list: Seq<GroupModel>, key: SortKey) -> Seq<GroupModel> {
    match key {
        SortKey::Alphabetical => by_label(list),
        _ => list,
    }
}

/// The groups that go with the search, in the order of the key.
pub open spec fn groups_shown(s: AppState) -> Seq<GroupModel> {
    ordered(found_upto(s.groups@, s.search_query@, s.groups@.len() as int), s.sort_key)
}

/// No group stands behind one whose label comes after its own.
pub open spec fn labels_sorted(list: Seq<GroupModel>) -> bool {
    forall|i: int, j: int|
        0 <= i < j < list.len() ==> !comes_before(
            (#[trigger] list[j]).label,
            (#[trigger] list[i]).label,
        )
}

/// A place for a label lies in the list, behind every label that does not come
/// after it.
proof fn lemma_place_for(list: Seq<GroupModel>, label: Seq<char>, i: int)
    requires
        0 <= i <= list.len(),
    ensures
        i <= place_for(list, label, i) <= list.len(),
        place_for(list, label, i) < list.len() ==> comes_before(
            label,
            list[place_for(list, label, i)].label,
        ),
        forall|k: int|
            i <= k < place_for(list, label, i) ==> !comes_before(label, (#[trigger] list[k]).label),
    decreases list.len() - i,
{
    if i < list.len() && !comes_before(label, list[i].label) {
        lemma_place_for(list, label, i + 1);
    }
}

/// Groups that are put where they belong leave a sorted list sorted.
proof fn lemma_insert_sorted(list: Seq<GroupModel>, g: GroupModel)
    requires
        labels_sorted(list),
    ensures
        labels_sorted(list.insert(place_for(list, g.label, 0), g)),
{
    lemma_place_for(list, g.label, 0);
    let p = place_for(list, g.label, 0);
    let next = list.insert(p, g);
    assert forall|i: int, j: int| 0 <= i < j < next.len() implies !comes_before(
        (#[trigger] next[j]).label,
        (#[trigger] next[i]).label,
    ) by {
        let a = if i < p {
            i
        } else {
            i - 1
        };
        let b = if j < p {
            j
        } else {
            j - 1
        };
        if i != p && j != p {
            assert(next[i] == list[a] && next[j] == list[b]);
        } else if j == p {
            assert(next[i] == list[i]);
        } else {
            assert(next[j] == list[b]);
            if comes_before(list[b].label, g.label) {
                lemma_string_order(list[b].label, g.label, list[p].label);
                lemma_string_order(list[b].label, list[b].label, list[b].label);
                if b != p {
                    assert(!comes_before(list[b].label, list[p].label));
                }
            }
        }
    }
}

/// In alphabetical order no label comes before an earlier one, and in every order
/// the same groups are shown.
pub proof fn law_groups_are_sorted(list: Seq<GroupModel>, key: SortKey)
    ensures
        key == SortKey::Alphabetical ==> labels_sorted(ordered(list, key)),
        ordered(list, key).len() == list.len(),
        ordered(list, key).to_multiset() == list.to_multiset(),
{
    lemma_by_label(list);
}

/// Sorting by label sorts, and keeps the groups.
proof fn lemma_by_label(list: Seq<GroupModel>)
    ensures
        labels_sorted(by_label(list)),
        by_label(list).len() == list.len(),
        by_label(list).to_multiset() == list.to_multiset(),
{
    lemma_by_label_sorts(list);
    lemma_by_label_keeps(list);
}

/// Sorting by label sorts.
proof fn lemma_by_label_sorts(list: Seq<GroupModel>)
    ensures
        labels_sorted(by_label(list)),
        by_label(list).len() == list.len(),
    decreases list.len(),
{
    if list.len() > 0 {
        let before = by_label(list.drop_last());
        lemma_by_label_sorts(list.drop_last());
        lemma_insert_sorted(before, list.last());
        lemma_place_for(before, list.last().label, 0);
    }
}

/// Sorting by label keeps the groups.
#[verifier::spinoff_prover]
proof fn lemma_by_label_keeps(list: Seq<GroupModel>)
    ensures
        by_label(list).to_multiset() == list.to_multiset(),
    decreases list.len(),
{
    if list.len() > 0 {
        let rest = list.drop_last();
        let last = list.last();
        lemma_by_label_keeps(rest);
        let before = by_label(rest);
        lemma_place_for(before, last.label, 0);
        lemma_one_more(before, rest, place_for(before, last.label, 0), last);
        assert(rest.push(last) =~= list);
    }
}

/// Two lists of the same groups are so with one more group, wherever it is put.
#[verifier::spinoff_prover]
proof fn lemma_one_more(a: Seq<GroupModel>, b: Seq<GroupModel>, p: int, g: GroupModel)
    requires
        a.to_multiset() == b.to_multiset(),
        0 <= p <= a.len(),
    ensures
        a.insert(p, g).to_multiset() == b.push(g).to_multiset(),
{
    vstd::seq_lib::to_multiset_insert(a, p, g);
    vstd::seq_lib::to_multiset_build(b, g);
}

/// Where a group belongs among groups that are sorted by their labels.
fn find_place(list: &Vec<GroupView>, label: &str) -> (r: usize)
    ensures
        r == place_for(group_models(list@), label@, 0),
        r <= list@.len(),
{
    let ghost models = group_models(list@);
    let mut i: usize = 0;
    while i < list.len()
        invariant
            i <= list.len(),
            models == group_models(list@),
            place_for(models, label@, 0) == place_for(models, label@, i as int),
        decreases list.len() - i,
    {
        assert(models[i as int] == list@[i as int]@);
        if is_before(label, list[i].label.as_str()) {
            return i;
        }
        i += 1;
    }
    i
}

/// Holds of every entry but one.
pub open spec fn other_than(entry: (i64, usize)) -> spec_fn((i64, usize)) -> bool {
    |e: (i64, usize)| e != entry
}

/// An entry of a set, put in where it is missing and taken out where it is not.
pub open spec fn toggled(set: Seq<(i64, usize)>, entry: (i64, usize)) -> Seq<(i64, usize)> {
    if set.contains(entry) {
        set.filter(other_than(entry))
    } else {
        set.push(entry)
    }
}

/// A set with the first `n` occurrences of a group.
pub open spec fn with_all(set: Seq<(i64, usize)>, group: i64, n: int) -> Seq<(i64, usize)>
    decreases n,
{
    if n <= 0 {
        set
    } else {
        let before = with_all(set, group, n - 1);
        let entry = (group, (n - 1) as usize);
        if before.contains(entry) {
            before
        } else {
            before.push(entry)
        }
    }
}

/// Whether a set holds an entry.
pub fn holds_entry(set: &Vec<(i64, usize)>, entry: (i64, usize)) -> (r: bool)
    ensures
        r == set@.contains(entry),
{
    let mut i: usize = 0;
    while i < set.len()
        invariant
            i <= set.len(),
            forall|k: int| 0 <= k < i ==> set@[k] != entry,
        decreases set.len() - i,
    {
        if set[i].0 == entry.0 && set[i].1 == entry.1 {
            assert(set@[i as int] == entry);
            return true;
        }
        i += 1;
    }
    false
}

/// Puts an entry into a set, or takes it out.
fn toggle_entry(set: &mut Vec<(i64, usize)>, entry: (i64, usize))
    ensures
        final(set)@ == toggled(old(set)@, entry),
{
    if !holds_entry(set, entry) {
        set.push(entry);
        return;
    }
    let ghost all = set@;
    let ghost keep = other_than(entry);
    let mut out: Vec<(i64, usize)> = Vec::new();
    let mut i: usize = 0;
    proof {
        reveal(Seq::filter);
        assert(out@ =~= all.take(0).filter(keep));
    }
    while i < set.len()
        invariant
            i <= set.len(),
            set@ == all,
            keep == other_than(entry),
            out@ == all.take(i as int).filter(keep),
        decreases set.len() - i,
    {
        proof {
            lemma_filter_step(all, keep, i as int);
        }
        let e: (i64, usize) = set[i];
        if !(e.0 == entry.0 && e.1 == entry.1) {
            out.push(e);
        }
        i += 1;
    }
    proof {
        assert(all.take(i as int) =~= all);
    }
    *set = out;
}

impl AppState {
    /// The lists of occurrences that are selected, collapsed and dismissed hold
    /// each of them once.
    pub open spec fn sets_hold(self) -> bool {
        &&& self.selected_occurrence_indices@.no_duplicates()
        &&& self.collapsed_occurrences@.no_duplicates()
        &&& dismissed_once(self.session_occurrence_dismissed@)
    }

    /// Nothing is open, and nothing is shown or remembered.
    pub open spec fn is_fresh(self) -> bool {
        &&& self.current_folder is None
        &&& self.groups@.len() == 0
        &&& self.dismissed@.len() == 0
        &&& self.selected_group is None
        &&& self.status == AppStatus::NoFolderOpen
        &&& !self.dismissed_expanded
        &&& self.groups_streaming@.len() == 0
        &&& self.search_query@.len() == 0
        &&& self.sort_key == SortKey::Severity
        &&& !self.sort_popup_open
        &&& self.focused_pane == Pane::Sidebar
        &&& !self.sidebar_hidden
        &&& self.scan_state == ScanState::Idle
        &&& self.selected_occurrence_indices@.len() == 0
        &&& self.collapsed_occurrences@.len() == 0
        &&& self.session_occurrence_dismissed@.len() == 0
        &&& self.detail_config.context_lines == DEFAULT_CONTEXT_LINES
        &&& self.detail_rows_cache is None
        &&& self.blame_cache.entries@.len() == 0
        &&& self.recent_projects.entries@.len() == 0
        &&& self.recent_banner is None
        &&& self.editor_banner is None
        &&& !self.preferences_open
        &&& self.startup_error is None
        &&& self.toasts.toasts@.len() == 0
        &&& self.toasts.next_id == 0
        &&& self.scan_issues@.len() == 0
        &&& !self.scan_issues_open
    }

    /// The state before anything is opened.
    pub fn new() -> (r: Self)
        ensures
            r.is_fresh(),
            r.sets_hold(),
    {
        AppState {
            current_folder: None,
            groups: Vec::new(),
            dismissed: Vec::new(),
            selected_group: None,
            status: AppStatus::NoFolderOpen,
            dismissed_expanded: false,
            groups_streaming: Vec::new(),
            search_query: String::new(),
            sort_key: SortKey::Severity,
            sort_popup_open: false,
            focused_pane: Pane::Sidebar,
            sidebar_hidden: false,
            scan_state: ScanState::Idle,
            selected_occurrence_indices: Vec::new(),
            collapsed_occurrences: Vec::new(),
            session_occurrence_dismissed: Vec::new(),
            detail_config: DetailConfig { context_lines: DEFAULT_CONTEXT_LINES },
            detail_rows_cache: None,
            blame_cache: BlameCache::new(),
            recent_projects: RecentProjects::empty(),
            recent_banner: None,
            editor_banner: None,
            preferences_open: false,
            startup_error: None,
            toasts: ToastStack::new(),
            scan_issues: Vec::new(),
            scan_issues_open: false,
        }
    }

    /// Takes over a newly opened folder. Its first group is selected, and the
    /// list of dismissed groups is closed.
    pub fn set_folder_result(&mut self, result: FolderLoadResult)
        ensures
            *final(self) == (AppState {
                current_folder: Some(result.folder),
                groups: result.groups,
                dismissed: result.dismissed,
                status: result.status,
                selected_group: if result.groups@.len() > 0 {
                    Some(result.groups@[0].id)
                } else {
                    None
                },
                dismissed_expanded: false,
                ..*old(self)
            }),
    {
        self.selected_group = if result.groups.len() > 0 {
            Some(result.groups[0].id)
        } else {
            None
        };
        self.current_folder = Some(result.folder);
        self.groups = result.groups;
        self.dismissed = result.dismissed;
        self.status = result.status;
        self.dismissed_expanded = false;
    }

    /// The first group with a number.
    pub fn group_by_id(&self, id: i64) -> (r: Option<&GroupView>)
        ensures
            match r {
                Some(g) => group_from(self.groups@, id, 0) == Some(g@),
                None => group_from(self.groups@, id, 0) is None,
            },
    {
        let mut i: usize = 0;
        while i < self.groups.len()
            invariant
                i <= self.groups.len(),
                group_from(self.groups@, id, 0) == group_from(self.groups@, id, i as int),
            decreases self.groups.len() - i,
        {
            if self.groups[i].id == id {
                return Some(&self.groups[i]);
            }
            i += 1;
        }
        None
    }

    /// The first dismissed group that had a number.
    pub fn dismissed_by_id(&self, id: i64) -> (r: Option<&SuppressionView>)
        ensures
            match r {
                Some(d) => dismissed_from(self.dismissed@, id, 0) == Some(d@),
                None => dismissed_from(self.dismissed@, id, 0) is None,
            },
    {
        let mut i: usize = 0;
        while i < self.dismissed.len()
            invariant
                i <= self.dismissed.len(),
                dismissed_from(self.dismissed@, id, 0) == dismissed_from(
                    self.dismissed@,
                    id,
                    i as int,
                ),
            decreases self.dismissed.len() - i,
        {
            if let Some(last) = self.dismissed[i].last_group_id {
                if last == id {
                    return Some(&self.dismissed[i]);
                }
            }
            i += 1;
        }
        None
    }

    /// The dismissed group that is selected, if one is.
    pub fn selected_dismissed(&self) -> (r: Option<&SuppressionView>)
        ensures
            match (self.selected_group, r) {
                (Some(id), Some(d)) => dismissed_from(self.dismissed@, id, 0) == Some(d@),
                (Some(id), None) => dismissed_from(self.dismissed@, id, 0) is None,
                (None, Some(_)) => false,
                (None, None) => true,
            },
    {
        match self.selected_group {
            Some(id) => self.dismissed_by_id(id),
            None => None,
        }
    }

    /// Whether an occurrence was dismissed in this session.
    fn dismissed_now(&self, hash: Option<u64>, path: &str) -> (r: bool)
        ensures
            r == is_dismissed_now(self.session_occurrence_dismissed@, hash, path@),
    {
        match hash {
            Some(h) => {
                let mut i: usize = 0;
                while i < self.session_occurrence_dismissed.len()
                    invariant
                        i <= self.session_occurrence_dismissed.len(),
                        hash == Some(h),
                        forall|k: int|
                            0 <= k < i ==> !((
                            #[trigger] self.session_occurrence_dismissed@[k]).0 == h && same_way(
                                self.session_occurrence_dismissed@[k].1@,
                                path@,
                            )),
                    decreases self.session_occurrence_dismissed.len() - i,
                {
                    let entry: &(u64, String) = &self.session_occurrence_dismissed[i];
                    if entry.0 == h && same_path(entry.1.as_str(), path) {
                        assert(self.session_occurrence_dismissed@[i as int].0 == h);
                        return true;
                    }
                    i += 1;
                }
                false
            },
            None => false,
        }
    }

    /// The occurrences of a group that were not dismissed in this session.
    pub fn visible_occurrences_of(&self, group: &GroupView) -> (r: Vec<OccurrenceView>)
        ensures
            occurrence_models(r@) == visible_in(group@, self.session_occurrence_dismissed@),
    {
        let mut out: Vec<OccurrenceView> = Vec::new();
        let mut i: usize = 0;
        let ghost g = group@;
        assert(occurrence_models(out@) =~= Seq::empty());
        while i < group.occurrences.len()
            invariant
                i <= group.occurrences.len(),
                g == group@,
                occurrence_models(out@) == visible_upto(
                    g,
                    self.session_occurrence_dismissed@,
                    i as int,
                ),
            decreases group.occurrences.len() - i,
        {
            let o: &OccurrenceView = &group.occurrences[i];
            let ghost before = occurrence_models(out@);
            assert(g.occurrences[i as int] == o@);
            if !self.dismissed_now(group.group_hash, o.path.as_str()) {
                let copy: OccurrenceView = o.clone();
                out.push(copy);
                assert(occurrence_models(out@) =~= before.push(copy@));
            }
            i += 1;
        }
        out
    }

    /// The occurrences of the selected group.
    pub fn selected_occurrences(&self) -> (r: Vec<OccurrenceView>)
        ensures
            occurrence_models(r@) == occurrences_shown(*self),
    {
        let empty: Vec<OccurrenceView> = Vec::new();
        assert(occurrence_models(empty@) =~= Seq::empty());
        match self.selected_group {
            Some(id) => match self.group_by_id(id) {
                Some(g) => self.visible_occurrences_of(g),
                None => match self.dismissed_by_id(id) {
                    Some(d) => copy_occurrences(&d.occurrences),
                    None => empty,
                },
            },
            None => empty,
        }
    }

    /// The groups of a tier, in order.
    fn tier_groups(&self, tier: Tier) -> (r: Vec<&GroupView>)
        ensures
            r@.unref() == self.groups@.filter(|g: GroupView| g.tier == tier),
    {
        let ghost keep = |g: GroupView| g.tier == tier;
        let mut out: Vec<&GroupView> = Vec::new();
        let mut i: usize = 0;
        proof {
            reveal(Seq::filter);
            assert(out@.unref() =~= self.groups@.take(0).filter(keep));
        }
        while i < self.groups.len()
            invariant
                i <= self.groups.len(),
                keep == (|g: GroupView| g.tier == tier),
                out@.unref() == self.groups@.take(i as int).filter(keep),
            decreases self.groups.len() - i,
        {
            let ghost before = out@.unref();
            proof {
                lemma_filter_step(self.groups@, keep, i as int);
            }
            if self.groups[i].tier == tier {
                out.push(&self.groups[i]);
                assert(out@.unref() =~= before.push(self.groups@[i as int]));
            }
            i += 1;
        }
        assert(self.groups@.take(i as int) =~= self.groups@);
        out
    }

    /// The groups that were found by their syntax trees, in order.
    pub fn tier_b_groups(&self) -> (r: Vec<&GroupView>)
        ensures
            r@.unref() == self.groups@.filter(|g: GroupView| g.tier == Tier::B),
    {
        self.tier_groups(Tier::B)
    }

    /// The groups that were found as text, in order.
    pub fn tier_a_groups(&self) -> (r: Vec<&GroupView>)
        ensures
            r@.unref() == self.groups@.filter(|g: GroupView| g.tier == Tier::A),
    {
        self.tier_groups(Tier::A)
    }

    /// The groups that go with the search, in the order of the key.
    pub fn visible_groups(&self) -> (r: Vec<GroupView>)
        ensures
            group_models(r@) == groups_shown(*self),
    {
        let mut out: Vec<GroupView> = Vec::new();
        let mut i: usize = 0;
        assert(group_models(out@) =~= Seq::empty());
        while i < self.groups.len()
            invariant
                i <= self.groups.len(),
                group_models(out@) == ordered(
                    found_upto(self.groups@, self.search_query@, i as int),
                    self.sort_key,
                ),
            decreases self.groups.len() - i,
        {
            let ghost before = group_models(out@);
            let ghost found = found_upto(self.groups@, self.search_query@, i as int);
            if contains(self.groups[i].label.as_str(), self.search_query.as_str()) {
                let copy: GroupView = self.groups[i].clone();
                let ghost model = copy@;
                assert(found.push(model).drop_last() =~= found);
                let at: usize = match self.sort_key {
                    SortKey::Alphabetical => find_place(&out, copy.label.as_str()),
                    _ => out.len(),
                };
                out.insert(at, copy);
                assert(group_models(out@) =~= before.insert(at as int, model));
                assert(before.insert(before.len() as int, model) =~= before.push(model));
            }
            i += 1;
        }
        out
    }

    /// Sets the search.
    pub fn set_search_query(&mut self, query: String)
        ensures
            *final(self) == (AppState { search_query: query, ..*old(self) }),
    {
        self.search_query = query;
    }

    /// Whether an occurrence is collapsed.
    pub fn is_occurrence_collapsed(&self, group_id: i64, occ_idx: usize) -> (r: bool)
        ensures
            r == self.collapsed_occurrences@.contains((group_id, occ_idx)),
    {
        holds_entry(&self.collapsed_occurrences, (group_id, occ_idx))
    }

    /// Whether an occurrence is selected.
    pub fn is_occurrence_selected(&self, group_id: i64, occ_idx: usize) -> (r: bool)
        ensures
            r == self.selected_occurrence_indices@.contains((group_id, occ_idx)),
    {
        holds_entry(&self.selected_occurrence_indices, (group_id, occ_idx))
    }

    /// Selects an occurrence, or takes the selection back.
    pub fn toggle_occurrence(&mut self, group_id: i64, occ_idx: usize)
        ensures
            final(self).selected_occurrence_indices@ == toggled(
                old(self).selected_occurrence_indices@,
                (group_id, occ_idx),
            ),
            *final(self) == (AppState {
                selected_occurrence_indices: final(self).selected_occurrence_indices,
                ..*old(self)
            }),
            old(self).sets_hold() ==> final(self).sets_hold(),
    {
        proof {
            if self.sets_hold() {
                law_toggling_keeps_a_set(self.selected_occurrence_indices@, (group_id, occ_idx));
            }
        }
        toggle_entry(&mut self.selected_occurrence_indices, (group_id, occ_idx));
    }

    /// Collapses an occurrence, or expands it.
    pub fn toggle_occurrence_collapse(&mut self, group_id: i64, occ_idx: usize)
        ensures
            final(self).collapsed_occurrences@ == toggled(
                old(self).collapsed_occurrences@,
                (group_id, occ_idx),
            ),
            *final(self) == (AppState {
                collapsed_occurrences: final(self).collapsed_occurrences,
                ..*old(self)
            }),
            old(self).sets_hold() ==> final(self).sets_hold(),
    {
        proof {
            if self.sets_hold() {
                law_toggling_keeps_a_set(self.collapsed_occurrences@, (group_id, occ_idx));
            }
        }
        toggle_entry(&mut self.collapsed_occurrences, (group_id, occ_idx));
    }

    /// Collapses every occurrence of the selected group.
    pub fn collapse_all_in_active_group(&mut self)
        ensures
            final(self).collapsed_occurrences@ == match old(self).selected_group {
                Some(id) => with_all(
                    old(self).collapsed_occurrences@,
                    id,
                    occurrences_shown(*old(self)).len() as int,
                ),
                None => old(self).collapsed_occurrences@,
            },
            *final(self) == (AppState {
                collapsed_occurrences: final(self).collapsed_occurrences,
                ..*old(self)
            }),
            old(self).sets_hold() ==> final(self).sets_hold(),
    {
        if let Some(id) = self.selected_group {
            let shown: Vec<OccurrenceView> = self.selected_occurrences();
            proof {
                if self.sets_hold() {
                    law_collapsing_keeps_a_set(
                        self.collapsed_occurrences@,
                        id,
                        occurrences_shown(*self).len() as int,
                    );
                }
            }
            let n: usize = shown.len();
            assert(occurrence_models(shown@).len() == n);
            let ghost all = self.collapsed_occurrences@;
            let mut i: usize = 0;
            while i < n
                invariant
                    i <= n,
                    self.collapsed_occurrences@ == with_all(all, id, i as int),
                    *self == (AppState {
                        collapsed_occurrences: self.collapsed_occurrences,
                        ..*old(self)
                    }),
                decreases n - i,
            {
                if !holds_entry(&self.collapsed_occurrences, (id, i)) {
                    self.collapsed_occurrences.push((id, i));
                }
                i += 1;
            }
        }
    }

    /// Expands every occurrence of the selected group.
    pub fn expand_all_in_active_group(&mut self)
        ensures
            final(self).collapsed_occurrences@ == match old(self).selected_group {
                Some(id) => old(self).collapsed_occurrences@.filter(|e: (i64, usize)| e.0 != id),
                None => old(self).collapsed_occurrences@,
            },
            *final(self) == (AppState {
                collapsed_occurrences: final(self).collapsed_occurrences,
                ..*old(self)
            }),
            old(self).sets_hold() ==> final(self).sets_hold(),
    {
        if let Some(id) = self.selected_group {
            let ghost all = self.collapsed_occurrences@;
            let ghost keep = |e: (i64, usize)| e.0 != id;
            proof {
                if self.sets_hold() {
                    law_filtering_keeps_a_set(all, keep);
                }
            }
            let mut out: Vec<(i64, usize)> = Vec::new();
            let mut i: usize = 0;
            proof {
                reveal(Seq::filter);
                assert(out@ =~= all.take(0).filter(keep));
            }
            while i < self.collapsed_occurrences.len()
                invariant
                    i <= self.collapsed_occurrences.len(),
                    *self == *old(self),
                    self.collapsed_occurrences@ == all,
                    keep == (|e: (i64, usize)| e.0 != id),
                    out@ == all.take(i as int).filter(keep),
                decreases self.collapsed_occurrences.len() - i,
            {
                proof {
                    lemma_filter_step(all, keep, i as int);
                }
                let e: (i64, usize) = self.collapsed_occurrences[i];
                if e.0 != id {
                    out.push(e);
                }
                i += 1;
            }
            assert(all.take(i as int) =~= all);
            self.collapsed_occurrences = out;
        }
    }
}

/// Toggling an entry of a set changes whether it is in, and nothing else.
pub proof fn law_toggle_flips(set: Seq<(i64, usize)>, entry: (i64, usize), other: (i64, usize))
    requires
        other != entry,
    ensures
        toggled(set, entry).contains(entry) <==> !set.contains(entry),
        toggled(set, entry).contains(other) <==> set.contains(other),
{
    if set.contains(entry) {
        lemma_filter_contains(set, other_than(entry), entry);
        lemma_filter_contains(set, other_than(entry), other);
    } else {
        assert(set.push(entry)[set.len() as int] == entry);
        lemma_push_contains(set, entry, other);
    }
}

/// What a filter keeps.
proof fn lemma_filter_contains<T>(s: Seq<T>, keep: spec_fn(T) -> bool, x: T)
    ensures
        s.filter(keep).contains(x) <==> s.contains(x) && keep(x),
    decreases s.len(),
{
    reveal(Seq::filter);
    if s.len() > 0 {
        let before = s.drop_last();
        lemma_filter_contains(before, keep, x);
        assert(s =~= before.push(s.last()));
        lemma_push_contains(before, s.last(), x);
        if keep(s.last()) {
            lemma_push_contains(before.filter(keep), s.last(), x);
        }
    }
}

/// What a longer list holds.
proof fn lemma_push_contains<T>(s: Seq<T>, last: T, x: T)
    ensures
        s.push(last).contains(x) <==> s.contains(x) || x == last,
{
    if s.contains(x) {
        let i = s.index_of(x);
        assert(s.push(last)[i] == x);
    }
    if x == last {
        assert(s.push(last)[s.len() as int] == x);
    }
    if s.push(last).contains(x) && x != last {
        let i = s.push(last).index_of(x);
        assert(s[i] == x);
    }
}

/// Collapsing a whole group collapses its occurrences, and nothing else.
pub proof fn law_collapse_all(set: Seq<(i64, usize)>, group: i64, n: int, e: (i64, usize))
    requires
        0 <= n <= usize::MAX,
    ensures
        with_all(set, group, n).contains(e) <==> set.contains(e) || (e.0 == group && e.1 < n),
    decreases n,
{
    if n > 0 {
        law_collapse_all(set, group, n - 1, e);
        let before = with_all(set, group, n - 1);
        lemma_push_contains(before, (group, (n - 1) as usize), e);
    }
}

/// Expanding a whole group expands its occurrences, and nothing else.
pub proof fn law_expand_all(set: Seq<(i64, usize)>, group: i64, e: (i64, usize))
    ensures
        set.filter(|x: (i64, usize)| x.0 != group).contains(e) <==> set.contains(e) && e.0 != group,
{
    lemma_filter_contains(set, |x: (i64, usize)| x.0 != group, e);
}

/// Toggling leaves every entry of a set listed once.
pub proof fn law_toggling_keeps_a_set(set: Seq<(i64, usize)>, entry: (i64, usize))
    requires
        set.no_duplicates(),
    ensures
        toggled(set, entry).no_duplicates(),
{
    if set.contains(entry) {
        law_filtering_keeps_a_set(set, other_than(entry));
    } else {
        lemma_push_once(set, entry);
    }
}

/// Collapsing a whole group leaves every entry of a set listed once.
pub proof fn law_collapsing_keeps_a_set(set: Seq<(i64, usize)>, group: i64, n: int)
    requires
        set.no_duplicates(),
    ensures
        with_all(set, group, n).no_duplicates(),
    decreases n,
{
    if n > 0 {
        law_collapsing_keeps_a_set(set, group, n - 1);
        let before = with_all(set, group, n - 1);
        let entry = (group, (n - 1) as usize);
        if !before.contains(entry) {
            lemma_push_once(before, entry);
        }
    }
}

/// Taking entries out leaves every entry of a set listed once.
pub proof fn law_filtering_keeps_a_set(
    set: Seq<(i64, usize)>,
    keep: spec_fn((i64, usize)) -> bool,
)
    requires
        set.no_duplicates(),
    ensures
        set.filter(keep).no_duplicates(),
{
    lemma_filter_apart(set, keep, |a: (i64, usize), b: (i64, usize)| a == b);
    let left = set.filter(keep);
    assert forall|i: int, j: int| 0 <= i < left.len() && 0 <= j < left.len() && i != j implies left[i]
        != left[j] by {
        if i < j {
            assert(left[i] != left[j]);
        } else {
            assert(left[j] != left[i]);
        }
    }
}

/// Taking entries out leaves every dismissal listed once.
pub proof fn law_filtering_keeps_dismissals(
    set: Seq<(u64, String)>,
    keep: spec_fn((u64, String)) -> bool,
)
    requires
        dismissed_once(set),
    ensures
        dismissed_once(set.filter(keep)),
{
    lemma_filter_apart(
        set,
        keep,
        |a: (u64, String), b: (u64, String)| a.0 == b.0 && same_way(a.1@, b.1@),
    );
}

/// Dismissing an occurrence that is shown leaves every dismissal listed once.
pub proof fn law_dismissing_keeps_dismissals(
    g: GroupModel,
    set: Seq<(u64, String)>,
    i: int,
    entry: (u64, String),
)
    requires
        dismissed_once(set),
        0 <= i < visible_in(g, set).len(),
        g.group_hash == Some(entry.0),
        entry.1@ == visible_in(g, set)[i].path,
    ensures
        dismissed_once(set.push(entry)),
{
    law_dismissed_occurrences_are_hidden(g, set, g.occurrences.len() as int, i);
}

/// A new entry leaves a list without duplicates.
proof fn lemma_push_once<T>(s: Seq<T>, x: T)
    requires
        s.no_duplicates(),
        !s.contains(x),
    ensures
        s.push(x).no_duplicates(),
{
    let next = s.push(x);
    assert forall|i: int, j: int| 0 <= i < next.len() && 0 <= j < next.len() && i != j implies next[i]
        != next[j] by {
        if i < s.len() {
            assert(s.contains(s[i]));
        }
        if j < s.len() {
            assert(s.contains(s[j]));
        }
    }
}

/// Where no earlier item of a list stands in a relation to a later one, none does
/// in what a filter leaves.
proof fn lemma_filter_apart<T>(s: Seq<T>, keep: spec_fn(T) -> bool, rel: spec_fn(T, T) -> bool)
    requires
        forall|i: int, j: int|
            0 <= i < j < s.len() ==> !rel(#[trigger] s[i], #[trigger] s[j]),
    ensures
        forall|i: int, j: int|
            0 <= i < j < s.filter(keep).len() ==> !rel(
                #[trigger] s.filter(keep)[i],
                #[trigger] s.filter(keep)[j],
            ),
    decreases s.len(),
{
    reveal(Seq::filter);
    if s.len() > 0 {
        let before = s.drop_last();
        let left = before.filter(keep);
        let kept = s.filter(keep);
        assert forall|i: int, j: int| 0 <= i < j < before.len() implies !rel(
            #[trigger] before[i],
            #[trigger] before[j],
        ) by {
            assert(!rel(s[i], s[j]));
        }
        lemma_filter_apart(before, keep, rel);
        assert forall|i: int, j: int| 0 <= i < j < kept.len() implies !rel(
            #[trigger] kept[i],
            #[trigger] kept[j],
        ) by {
            if j < left.len() {
                assert(!rel(left[i], left[j]));
            } else {
                assert(left.contains(left[i]));
                lemma_filter_contains(before, keep, left[i]);
                let k = before.index_of(left[i]);
                assert(!rel(s[k], s[s.len() - 1]));
            }
        }
    }
}

/// No occurrence that is shown of a group was dismissed in this session, and
/// each was there.
pub proof fn law_dismissed_occurrences_are_hidden(
    g: GroupModel,
    set: Seq<(u64, String)>,
    n: int,
    i: int,
)
    requires
        0 <= n <= g.occurrences.len(),
        0 <= i < visible_upto(g, set, n).len(),
    ensures
        !is_dismissed_now(set, g.group_hash, visible_upto(g, set, n)[i].path),
        g.occurrences.contains(visible_upto(g, set, n)[i]),
    decreases n,
{
    let before = visible_upto(g, set, n - 1);
    if i < before.len() {
        law_dismissed_occurrences_are_hidden(g, set, n - 1, i);
    } else {
        assert(g.occurrences.contains(g.occurrences[n - 1]));
    }
}

/// Of a group all occurrences are shown that were not dismissed in this session,
/// in their order.
pub proof fn law_other_occurrences_are_shown(g: GroupModel, set: Seq<(u64, String)>)
    ensures
        visible_in(g, set) == g.occurrences.filter(
            |o: OccurrenceModel|
                !(g.group_hash is Some && exists|i: int|
                    0 <= i < set.len() && (#[trigger] set[i]).0 == g.group_hash->0 && same_way(
                        set[i].1@,
                        o.path,
                    )),
        ),
{
    let n = g.occurrences.len() as int;
    lemma_visible(g, set, n);
    assert(g.occurrences.take(n) =~= g.occurrences);
}

/// The first occurrences that are shown.
proof fn lemma_visible(g: GroupModel, set: Seq<(u64, String)>, n: int)
    requires
        0 <= n <= g.occurrences.len(),
    ensures
        visible_upto(g, set, n) == g.occurrences.take(n).filter(
            |o: OccurrenceModel|
                !(g.group_hash is Some && exists|i: int|
                    0 <= i < set.len() && (#[trigger] set[i]).0 == g.group_hash->0 && same_way(
                        set[i].1@,
                        o.path,
                    )),
        ),
    decreases n,
{
    reveal(Seq::filter);
    if n > 0 {
        lemma_visible(g, set, n - 1);
        assert(g.occurrences.take(n).drop_last() =~= g.occurrences.take(n - 1));
        assert(g.occurrences.take(n).last() == g.occurrences[n - 1]);
    }
}

/// A search shows the groups in whose rows its text stands, and no others, in
/// their order.
pub proof fn law_search_finds(groups: Seq<GroupView>, query: Seq<char>)
    ensures
        found_upto(groups, query, groups.len() as int) == group_models(groups).filter(
            |g: GroupModel|
                exists|a: Seq<char>, b: Seq<char>| g.label == #[trigger] (a + query + b),
        ),
{
    let n = groups.len() as int;
    lemma_found(groups, query, n);
    assert(group_models(groups).take(n) =~= group_models(groups));
}

/// The first groups that a search shows.
proof fn lemma_found(groups: Seq<GroupView>, query: Seq<char>, n: int)
    requires
        0 <= n <= groups.len(),
    ensures
        found_upto(groups, query, n) == group_models(groups).take(n).filter(
            |g: GroupModel|
                exists|a: Seq<char>, b: Seq<char>| g.label == #[trigger] (a + query + b),
        ),
    decreases n,
{
    reveal(Seq::filter);
    if n > 0 {
        lemma_found(groups, query, n - 1);
        let all = group_models(groups);
        assert(all.take(n).drop_last() =~= all.take(n - 1));
        assert(all.take(n).last() == all[n - 1]);
        law_holds(groups[n - 1].label@, query);
    }
}

/// Without a search every group is shown, as the cache hands them out unless they
/// are sorted by their labels.
pub proof fn law_everything_is_shown(s: AppState)
    requires
        s.search_query@.len() == 0,
        s.sort_key != SortKey::Alphabetical,
    ensures
        groups_shown(s) == group_models(s.groups@),
{
    lemma_found_all(s.groups@, s.search_query@, s.groups@.len() as int);
    assert(group_models(s.groups@).take(s.groups@.len() as int) =~= group_models(s.groups@));
}

/// An empty search goes with every group.
proof fn lemma_found_all(groups: Seq<GroupView>, query: Seq<char>, n: int)
    requires
        0 <= n <= groups.len(),
        query.len() == 0,
    ensures
        found_upto(groups, query, n) == group_models(groups).take(n),
    decreases n,
{
    if n > 0 {
        lemma_found_all(groups, query, n - 1);
        let label = groups[n - 1].label@;
        assert(label =~= Seq::<char>::empty() + query + label);
        law_holds(label, query);
        assert(group_models(groups).take(n) =~= group_models(groups).take(n - 1).push(
            groups[n - 1]@,
        ));
    } else {
        assert(group_models(groups).take(0) =~= Seq::empty());
    }
}

/// Which groups are shown does not depend on the order that is chosen.
pub proof fn law_order_changes_no_group(s: AppState, t: AppState)
    requires
        s.groups@ == t.groups@,
        s.search_query@ == t.search_query@,
    ensures
        groups_shown(s).to_multiset() == groups_shown(t).to_multiset(),
{
    let found = found_upto(s.groups@, s.search_query@, s.groups@.len() as int);
    law_groups_are_sorted(found, s.sort_key);
    law_groups_are_sorted(found, t.sort_key);
}

/// Groups with the same label stay in the order in which they came.
pub proof fn law_sorting_is_stable(list: Seq<GroupModel>, key: SortKey, label: Seq<char>)
    ensures
        ordered(list, key).filter(|g: GroupModel| g.label == label) == list.filter(
            |g: GroupModel| g.label == label,
        ),
{
    lemma_stable(list, label);
}

/// Sorting by label keeps the order of groups with the same label.
proof fn lemma_stable(list: Seq<GroupModel>, label: Seq<char>)
    ensures
        by_label(list).filter(|g: GroupModel| g.label == label) == list.filter(
            |g: GroupModel| g.label == label,
        ),
    decreases list.len(),
{
    reveal(Seq::filter);
    let same = |g: GroupModel| g.label == label;
    if list.len() > 0 {
        let rest = list.drop_last();
        let last = list.last();
        lemma_stable(rest, label);
        lemma_by_label(rest);
        let before = by_label(rest);
        lemma_place_for(before, last.label, 0);
        let p = place_for(before, last.label, 0);
        let front = before.take(p);
        let back = before.skip(p);
        assert(before =~= front + back);
        assert(before.insert(p, last) =~= front + seq![last] + back);
        Seq::filter_distributes_over_add(front, back, same);
        Seq::filter_distributes_over_add(front + seq![last], back, same);
        Seq::filter_distributes_over_add(front, seq![last], same);
        assert(seq![last].drop_last() =~= Seq::empty());
        assert(Seq::<GroupModel>::empty().filter(same) =~= Seq::empty());
        assert(seq![last].filter(same) =~= if same(last) {
            seq![last]
        } else {
            Seq::empty()
        });
        if same(last) {
            assert forall|i: int| 0 <= i < back.len() implies !same(#[trigger] back[i]) by {
                assert(back[i] == before[p + i]);
                if back[i].label == label {
                    if i > 0 {
                        assert(!comes_before(before[p + i].label, before[p].label));
                    }
                    lemma_string_order(label, before[p].label, label);
                }
            }
            lemma_none_left(back, same);
            assert(front.filter(same) + seq![last] + back.filter(same) =~= front.filter(same)
                + back.filter(same) + seq![last]);
        }
        assert(by_label(list).filter(same) =~= list.filter(same));
    }
}

/// A filter that keeps nothing leaves nothing.
proof fn lemma_none_left(s: Seq<GroupModel>, keep: spec_fn(GroupModel) -> bool)
    requires
        forall|i: int| 0 <= i < s.len() ==> !keep(#[trigger] s[i]),
    ensures
        s.filter(keep) == Seq::<GroupModel>::empty(),
    decreases s.len(),
{
    reveal(Seq::filter);
    if s.len() > 0 {
        assert(!keep(s[s.len() - 1]));
        lemma_none_left(s.drop_last(), keep);
    }
    assert(s.filter(keep) =~= Seq::empty());
}

/// A group is found by its number, the first one with it; where there is none
/// with it nothing is found.
pub proof fn law_group_is_found(groups: Seq<GroupView>, id: i64, from: int, i: int)
    requires
        0 <= from <= i <= groups.len(),
        forall|j: int| from <= j < i ==> (#[trigger] groups[j]).id != id,
        i < groups.len() ==> groups[i].id == id,
    ensures
        group_from(groups, id, from) == if i < groups.len() {
            Some(groups[i]@)
        } else {
            None
        },
    decreases i - from,
{
    if from < i {
        assert(groups[from].id != id);
        law_group_is_found(groups, id, from + 1, i);
    }
}

/// A dismissed group is found by the number that it had, the first one with it;
/// where there is none with it nothing is found.
pub proof fn law_dismissed_group_is_found(
    list: Seq<SuppressionView>,
    id: i64,
    from: int,
    i: int,
)
    requires
        0 <= from <= i <= list.len(),
        forall|j: int| from <= j < i ==> (#[trigger] list[j]).last_group_id != Some(id),
        i < list.len() ==> list[i].last_group_id == Some(id),
    ensures
        dismissed_from(list, id, from) == if i < list.len() {
            Some(list[i]@)
        } else {
            None
        },
    decreases i - from,
{
    if from < i {
        assert(list[from].last_group_id != Some(id));
        law_dismissed_group_is_found(list, id, from + 1, i);
    }
}

/// The detail pane shows the occurrences of the selected group: of a group of the
/// list those that are not dismissed, of a dismissed group all of them.
pub proof fn law_selected_occurrences(s: AppState, id: i64, i: int)
    requires
        s.selected_group == Some(id),
    ensures
        0 <= i < s.groups@.len() && s.groups@[i].id == id && (forall|j: int|
            0 <= j < i ==> (#[trigger] s.groups@[j]).id != id) ==> occurrences_shown(s)
            == visible_in(s.groups@[i]@, s.session_occurrence_dismissed@),
        0 <= i < s.dismissed@.len() && s.dismissed@[i].last_group_id == Some(id) && (forall|j: int|
            0 <= j < i ==> (#[trigger] s.dismissed@[j]).last_group_id != Some(id)) && (forall|
            j: int,
        |
            0 <= j < s.groups@.len() ==> (#[trigger] s.groups@[j]).id != id) ==> occurrences_shown(s)
            == occurrence_models(s.dismissed@[i].occurrences@),
{
    if 0 <= i < s.groups@.len() && s.groups@[i].id == id && (forall|j: int|
        0 <= j < i ==> (#[trigger] s.groups@[j]).id != id) {
        law_group_is_found(s.groups@, id, 0, i);
    }
    if 0 <= i < s.dismissed@.len() && s.dismissed@[i].last_group_id == Some(id) && (forall|j: int|
        0 <= j < i ==> (#[trigger] s.dismissed@[j]).last_group_id != Some(id)) && (forall|j: int|
        0 <= j < s.groups@.len() ==> (#[trigger] s.groups@[j]).id != id) {
        law_group_is_found(s.groups@, id, 0, s.groups@.len() as int);
        law_dismissed_group_is_found(s.dismissed@, id, 0, i);
    }
}

/// Nothing is shown in the detail pane where nothing is selected.
pub proof fn law_nothing_selected(s: AppState)
    requires
        s.selected_group is None,
    ensures
        occurrences_shown(s).len() == 0,
{
}

/// A group that was found by its syntax tree goes by its name, with its kind in
/// front where that is known; any other goes by its first occurrence.
pub proof fn law_group_labels(name: Seq<char>, kind: Seq<char>, first: OccurrenceModel)
    ensures
        group_text(Tier::B, Some(name), Some(kind), Some(first)) == kind + " "@ + name,
        group_text(Tier::B, Some(name), Some(kind), None) == kind + " "@ + name,
        group_text(Tier::B, Some(name), None, Some(first)) == name,
        group_text(Tier::B, Some(name), None, None) == name,
        group_text(Tier::B, None, Some(kind), Some(first)) == occurrence_label(first),
        group_text(Tier::B, None, None, Some(first)) == occurrence_label(first),
        group_text(Tier::A, Some(name), Some(kind), Some(first)) == occurrence_label(first),
        group_text(Tier::A, Some(name), None, Some(first)) == occurrence_label(first),
        group_text(Tier::A, None, Some(kind), Some(first)) == occurrence_label(first),
        group_text(Tier::A, None, None, Some(first)) == occurrence_label(first),
        group_text(Tier::A, Some(name), Some(kind), None) == "(empty group)"@,
        group_text(Tier::A, Some(name), None, None) == "(empty group)"@,
        group_text(Tier::A, None, Some(kind), None) == "(empty group)"@,
        group_text(Tier::A, None, None, None) == "(empty group)"@,
        group_text(Tier::B, None, Some(kind), None) == "(empty group)"@,
        group_text(Tier::B, None, None, None) == "(empty group)"@,
        occurrence_label(first) == first.path + ":L"@ + dec_int(first.start_line) + "\u{2013}"@
            + dec_int(first.end_line),
{
}

/// Times and results are announced in seconds: with a tenth, which is cut off and
/// not rounded, while a scan runs, and without when it is done.
pub proof fn law_times_are_cut(secs: nat, rest: nat, groups: usize, files: usize)
    requires
        rest < 1000,
        secs * 1000 + rest <= u64::MAX,
    ensures
        elapsed_text((secs * 1000 + rest) as u64) == dec(secs) + "."@ + dec(rest / 100) + "s"@,
        completion_text(groups, files, (secs * 1000 + rest) as u64) == "Scan complete \u{2014} "@
            + dec(groups as nat) + " groups across "@ + dec(files as nat) + " files in "@ + dec(secs)
            + "s."@,
{
    let millis = (secs * 1000 + rest) as nat;
    assert(millis / 1000 == secs);
    assert(millis % 1000 == rest);
}

/// A window starts without a folder, shows its sidebar and has the focus there,
/// sorts by severity, and shows three lines around an occurrence.
pub proof fn law_fresh_window(s: AppState)
    requires
        s.is_fresh(),
    ensures
        s.current_folder is None && s.status == AppStatus::NoFolderOpen && s.scan_state
            == ScanState::Idle,
        groups_shown(s).len() == 0 && occurrences_shown(s).len() == 0,
        s.sort_key == SortKey::Severity,
        s.focused_pane == Pane::Sidebar && !s.sidebar_hidden,
        s.detail_config.context_lines == 3,
        !s.dismissed_expanded && !s.sort_popup_open && !s.preferences_open && !s.scan_issues_open,
        s.toasts.toasts@.len() == 0 && s.toasts.next_id == 0,
        s.sets_hold(),
{
}

} // verus!
