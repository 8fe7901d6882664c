//! The main window: what its commands do, and what it shows.
use crate::app_state::{
    completion_text, dismissed_from, format_completion_banner, group_from, occurrences_shown,
    visible_in, AppState, AppStatus, EditorBanner, FolderLoadResult, GroupView, OccurrenceView,
    Pane, RecentBanner, ScanHandles, ScanState, SortKey, StartupError, StatusModel, Tier,
};
use crate::blame::{
    answered, fetch_with_cache, opt_blame, same_key, stored, BlameCacheKey, BlameInfo, BlameModel,
    BlameProvider, BlameResult,
};
use crate::detail_rows::diff::{line_for_pane, pane_line};
use crate::llm_prompt::{all_sources_available, instruction, llm_prompt, location_lines};
use crate::paths::{join, joined};
use crate::recent::{is_pushed, without};
use crate::text::{contains, dec, holds, law_holds, lower, push_dec, to_lower};
use crate::toast::{
    command_for, deadline, format_issues_clipboard, issue_block, toast_command, FileIssue, Toast,
    ToastAction, ToastCommand, ToastKind, ToastStack, ACTION_CACHE_DELETE_AND_RESCAN,
    ACTION_CACHE_RESCAN, ACTION_REMOVE_STALE_RECENT, ACTION_SHOW_ISSUES, WARNING_TTL,
};
use vstd::prelude::*;
use vstd::string::*;

pub mod actions;
pub mod rows;
pub mod widgets;

verus! {

// ---------------------------------------------------------------------------
// Toasts
// ---------------------------------------------------------------------------
/// What a toast says: its title, its body, and the label and name of its
/// button.
pub struct ToastText {
    pub title: Seq<char>,
    pub body: Option<Seq<char>>,
    pub action: Option<(Seq<char>, Seq<char>)>,
}

/// A toast with a title alone.
pub open spec fn titled(title: Seq<char>) -> ToastText {
    ToastText { title, body: None, action: None }
}

/// What a toast says.
pub open spec fn text_of_toast(t: Toast) -> ToastText {
    ToastText {
        title: t.title@,
        body: match t.body {
            Some(b) => Some(b@),
            None => None,
        },
        action: match t.action {
            Some(a) => Some((a.label@, a.action_name@)),
            None => None,
        },
    }
}

/// `new` is `old` with one more toast.
pub open spec fn toast_added(
    old: ToastStack,
    new: ToastStack,
    kind: ToastKind,
    text: ToastText,
    now: u64,
) -> bool {
    &&& new.next_id == old.next_id + 1
    &&& new.toasts@.len() == old.toasts@.len() + 1
    &&& new.toasts@.drop_last() == old.toasts@
    &&& new.toasts@.last().id == old.next_id
    &&& new.toasts@.last().kind == kind
    &&& text_of_toast(new.toasts@.last()) == text
    &&& new.toasts@.last().auto_dismiss_at == deadline(kind, now)
    &&& new.toasts@.last().created_at == now
}

/// `n` more toasts can be shown at a time.
pub open spec fn room_for_toasts(state: AppState, n: int, now: u64) -> bool {
    state.toasts.next_id + n <= u64::MAX && now + WARNING_TTL <= u64::MAX
}

impl AppState {
    /// Shows a toast.
    fn show_toast(
        &mut self,
        kind: ToastKind,
        title: String,
        body: Option<String>,
        action: Option<ToastAction>,
        now: u64,
    )
        requires
            room_for_toasts(*old(self), 1, now),
        ensures
            *final(self) == (AppState { toasts: final(self).toasts, ..*old(self) }),
            toast_added(
                old(self).toasts,
                final(self).toasts,
                kind,
                ToastText {
                    title: title@,
                    body: match body {
                        Some(b) => Some(b@),
                        None => None,
                    },
                    action: match action {
                        Some(a) => Some((a.label@, a.action_name@)),
                        None => None,
                    },
                },
                now,
            ),
    {
        let _ = self.toasts.push_full(kind, title, body, action, now);
        assert(self.toasts.toasts@.drop_last() =~= old(self).toasts.toasts@);
    }

    /// Shows an error.
    pub fn push_error_toast(
        &mut self,
        title: String,
        body: Option<String>,
        action: Option<ToastAction>,
        now: u64,
    )
        requires
            room_for_toasts(*old(self), 1, now),
        ensures
            *final(self) == (AppState { toasts: final(self).toasts, ..*old(self) }),
            toast_added(
                old(self).toasts,
                final(self).toasts,
                ToastKind::Error,
                ToastText {
                    title: title@,
                    body: match body {
                        Some(b) => Some(b@),
                        None => None,
                    },
                    action: match action {
                        Some(a) => Some((a.label@, a.action_name@)),
                        None => None,
                    },
                },
                now,
            ),
    {
        self.show_toast(ToastKind::Error, title, body, action, now);
    }

    /// Shows a warning.
    pub fn push_warning_toast(&mut self, title: String, now: u64)
        requires
            room_for_toasts(*old(self), 1, now),
        ensures
            *final(self) == (AppState { toasts: final(self).toasts, ..*old(self) }),
            toast_added(
                old(self).toasts,
                final(self).toasts,
                ToastKind::Warning,
                titled(title@),
                now,
            ),
    {
        self.show_toast(ToastKind::Warning, title, None, None, now);
    }

    /// Shows an information.
    pub fn push_info_toast(&mut self, title: String, now: u64)
        requires
            room_for_toasts(*old(self), 1, now),
        ensures
            *final(self) == (AppState { toasts: final(self).toasts, ..*old(self) }),
            toast_added(
                old(self).toasts,
                final(self).toasts,
                ToastKind::Info,
                titled(title@),
                now,
            ),
    {
        self.show_toast(ToastKind::Info, title, None, None, now);
    }
}

/// A text with a path in it: what says that a recent project is gone.
pub open spec fn stale_text(path: Seq<char>) -> Seq<char> {
    "Couldn\u{2019}t open "@ + path + " \u{2014} it may have been moved or deleted."@
}

/// What says that a recent project is gone.
pub fn stale_message(path: &str) -> (r: String)
    ensures
        r@ == stale_text(path@),
{
    let mut out: String = "Couldn\u{2019}t open ".to_owned();
    out.append(path);
    out.append(" \u{2014} it may have been moved or deleted.");
    out
}

/// What says how many files had issues.
pub open spec fn issues_text(count: nat) -> Seq<char> {
    dec(count) + " files had issues"@
}

/// What says how many files had issues.
pub fn issues_headline(count: usize) -> (r: String)
    ensures
        r@ == issues_text(count as nat),
{
    let mut out: String = String::new();
    push_dec(&mut out, count as u64);
    out.append(" files had issues");
    assert(out@ =~= issues_text(count as nat));
    out
}

// ---------------------------------------------------------------------------
// Commands
// ---------------------------------------------------------------------------
/// The main window.
#[derive(Debug)]
pub struct ProjectView {
    pub state: AppState,
}

/// The error of a cache speaks of damage.
pub open spec fn is_damage(message: Seq<char>) -> bool {
    holds(lower(message), "corrupt"@) || holds(
        lower(message),
        "database disk image is malformed"@,
    )
}

/// The toast for a folder that could not be opened as it should.
pub open spec fn folder_toast(status: StatusModel) -> Option<ToastText> {
    match status {
        StatusModel::NewerCache { .. } => Some(
            ToastText {
                title: "Cache created by newer Dedup version. Rescan?"@,
                body: None,
                action: Some(("Rescan (overwrites cache)"@, ACTION_CACHE_RESCAN@)),
            },
        ),
        StatusModel::Error(message) => if is_damage(message) {
            Some(
                ToastText {
                    title: "Cache is corrupted. Delete .dedup/ and rescan?"@,
                    body: Some(message),
                    action: Some(("Delete .dedup/ and rescan"@, ACTION_CACHE_DELETE_AND_RESCAN@)),
                },
            )
        } else {
            Some(
                ToastText {
                    title: "Could not open cache"@,
                    body: Some(message),
                    action: None,
                },
            )
        },
        _ => None,
    }
}

/// What to do with a recent project that was chosen.
#[derive(Debug)]
pub enum RecentChoice {
    /// There is none at that place.
    Nothing,
    /// It is gone, and that is announced.
    Announced,
    /// Its folder is to be opened.
    Open(String),
}

/// What happens next in a scan.
#[derive(Debug, Clone, Copy, PartialEq, Eq, Structural)]
pub enum ScanStep {
    /// More events can come.
    Continue,
    /// The scan is over.
    Done,
    /// The scan is over, and the folder is to be read again.
    Reload,
}

/// What a running scan reports.
#[derive(Debug)]
pub enum ScanEvent {
    /// The groups found as text.
    TierAStream(Vec<GroupView>),
    /// It is done.
    Completed { group_count: usize, file_count: usize, issues: Vec<FileIssue> },
    /// It has stopped, as it was asked to.
    Cancelled,
    /// Something failed, with a message: the scan, and nothing more comes, or
    /// storing its result, and the result comes next.
    ScanFailed(String),
    /// It panicked, with a message.
    BackgroundPanic(String),
}

/// How a scan ended.
#[derive(Debug)]
pub enum ScanOutcome {
    Finished,
    Cancelled,
    Failed(String),
}

/// How storing the result of a scan ended.
#[derive(Debug)]
pub enum PersistOutcome {
    Stored,
    WriteFailed(String),
    OpenFailed(String),
}

/// What the thread of a scan reports at its end.
#[derive(Debug)]
pub struct WorkerReport {
    /// A failure to report first.
    pub failure: Option<String>,
    /// Whether the scan stopped as it was asked to.
    pub cancelled: bool,
    /// Whether the result is reported.
    pub completed: bool,
}

/// The failure that is reported at the end of a scan.
pub open spec fn failure_of(scan: ScanOutcome, persist: PersistOutcome) -> Option<Seq<char>> {
    match (scan, persist) {
        (ScanOutcome::Cancelled, _) => None,
        (ScanOutcome::Failed(message), _) => Some(message@),
        (ScanOutcome::Finished, PersistOutcome::Stored) => None,
        (ScanOutcome::Finished, PersistOutcome::WriteFailed(e)) => Some(
            "Scan succeeded but cache write failed: "@ + e@,
        ),
        (ScanOutcome::Finished, PersistOutcome::OpenFailed(e)) => Some(
            "Scan succeeded but cache open failed: "@ + e@,
        ),
    }
}

/// A failure is reported exactly where the scan failed or where its result could
/// not be stored. It ends with what was the cause. Of a scan that was stopped, or
/// that failed itself, nothing is said of storing.
pub proof fn law_failures_are_reported(
    scan: ScanOutcome,
    persist: PersistOutcome,
    other: PersistOutcome,
)
    ensures
        failure_of(scan, persist) is Some <==> scan is Failed || (scan is Finished && persist
            !is Stored),
        scan is Failed ==> failure_of(scan, persist) == Some(scan->Failed_0@),
        scan is Finished && persist is WriteFailed ==> persist->WriteFailed_0@.is_suffix_of(
            failure_of(scan, persist)->0,
        ) && "Scan succeeded but cache write failed: "@.is_prefix_of(failure_of(scan, persist)->0),
        scan is Finished && persist is OpenFailed ==> persist->OpenFailed_0@.is_suffix_of(
            failure_of(scan, persist)->0,
        ) && "Scan succeeded but cache open failed: "@.is_prefix_of(failure_of(scan, persist)->0),
        scan !is Finished ==> failure_of(scan, persist) == failure_of(scan, other),
{
}

/// What the thread of a scan reports at its end. A result that could not be
/// stored is sent all the same, after the failure, and the window takes both.
pub fn worker_report(scan: &ScanOutcome, persist: &PersistOutcome) -> (r: WorkerReport)
    ensures
        (match r.failure {
            Some(text) => Some(text@),
            None => None,
        }) == failure_of(*scan, *persist),
        r.cancelled == (scan is Cancelled),
        r.completed == (scan is Finished),
        match (*scan, *persist, r.failure) {
            (ScanOutcome::Cancelled, _, f) => f is None,
            (ScanOutcome::Failed(message), _, f) => f matches Some(text) && text@ == message@,
            (ScanOutcome::Finished, PersistOutcome::Stored, f) => f is None,
            (ScanOutcome::Finished, PersistOutcome::WriteFailed(e), f) => f matches Some(text)
                && text@ == "Scan succeeded but cache write failed: "@ + e@,
            (ScanOutcome::Finished, PersistOutcome::OpenFailed(e), f) => f matches Some(text)
                && text@ == "Scan succeeded but cache open failed: "@ + e@,
        },
{
    match scan {
        ScanOutcome::Cancelled => WorkerReport { failure: None, cancelled: true, completed: false },
        ScanOutcome::Failed(message) => WorkerReport {
            failure: Some(message.clone()),
            cancelled: false,
            completed: false,
        },
        ScanOutcome::Finished => {
            let failure: Option<String> = match persist {
                PersistOutcome::Stored => None,
                PersistOutcome::WriteFailed(e) => {
                    let mut text: String = "Scan succeeded but cache write failed: ".to_owned();
                    text.append(e.as_str());
                    Some(text)
                },
                PersistOutcome::OpenFailed(e) => {
                    let mut text: String = "Scan succeeded but cache open failed: ".to_owned();
                    text.append(e.as_str());
                    Some(text)
                },
            };
            WorkerReport { failure, cancelled: false, completed: true }
        },
    }
}

/// The editor to start: the first of the two that is named, or `vi`.
pub open spec fn editor_of(editor: Option<Seq<char>>, visual: Option<Seq<char>>) -> Seq<char> {
    match (editor, visual) {
        (Some(e), _) if e.len() > 0 => e,
        (_, Some(v)) if v.len() > 0 => v,
        _ => "vi"@,
    }
}

/// The editor to start, from `EDITOR` and `VISUAL`.
pub fn editor_name(editor: Option<&str>, visual: Option<&str>) -> (r: String)
    ensures
        r@ == editor_of(crate::recent::opt_text(editor), crate::recent::opt_text(visual)),
{
    if let Some(e) = editor {
        if !e.is_empty() {
            return e.to_owned();
        }
    }
    if let Some(v) = visual {
        if !v.is_empty() {
            return v.to_owned();
        }
    }
    "vi".to_owned()
}

/// What becomes of the query when a character is typed.
pub open spec fn typed(query: Seq<char>, c: char) -> Seq<char> {
    query.push(c)
}

impl ProjectView {
    /// A window before anything is opened.
    pub fn new() -> (r: Self)
        ensures
            r.state.is_fresh(),
    {
        ProjectView { state: AppState::new() }
    }

    /// Takes over a folder that was opened at `now_secs`. A cache that could not
    /// be used is announced; unless its reading failed, the folder becomes the
    /// newest recent project, and the menus are to be built again.
    pub fn apply_folder(&mut self, folder: &str, result: FolderLoadResult, now: u64, now_secs: i64)
        -> (r: bool)
        requires
            room_for_toasts(old(self).state, 1, now),
        ensures
            r == !(result.status is Error),
            final(self).state == (AppState {
                current_folder: Some(result.folder),
                groups: result.groups,
                dismissed: result.dismissed,
                status: result.status,
                selected_group: if result.groups@.len() > 0 {
                    Some(result.groups@[0].id)
                } else {
                    None
                },
                dismissed_expanded: false,
                recent_banner: None,
                toasts: final(self).state.toasts,
                recent_projects: final(self).state.recent_projects,
                ..old(self).state
            }),
            match folder_toast(result.status@) {
                Some(text) => toast_added(
                    old(self).state.toasts,
                    final(self).state.toasts,
                    ToastKind::Error,
                    text,
                    now,
                ),
                None => final(self).state.toasts == old(self).state.toasts,
            },
            if result.status is Error {
                final(self).state.recent_projects == old(self).state.recent_projects
            } else {
                is_pushed(
                    old(self).state.recent_projects.entries@,
                    folder@,
                    now_secs,
                    final(self).state.recent_projects.entries@,
                )
            },
    {
        let mut is_error: bool = false;
        match &result.status {
            AppStatus::NewerCache { .. } => {
                self.state.push_error_toast(
                    "Cache created by newer Dedup version. Rescan?".to_owned(),
                    None,
                    Some(
                        ToastAction {
                            label: "Rescan (overwrites cache)".to_owned(),
                            action_name: ACTION_CACHE_RESCAN,
                        },
                    ),
                    now,
                );
            },
            AppStatus::Error(message) => {
                is_error = true;
                let small: String = to_lower(message.as_str());
                if contains(small.as_str(), "corrupt") || contains(
                    small.as_str(),
                    "database disk image is malformed",
                ) {
                    self.state.push_error_toast(
                        "Cache is corrupted. Delete .dedup/ and rescan?".to_owned(),
                        Some(message.clone()),
                        Some(
                            ToastAction {
                                label: "Delete .dedup/ and rescan".to_owned(),
                                action_name: ACTION_CACHE_DELETE_AND_RESCAN,
                            },
                        ),
                        now,
                    );
                } else {
                    self.state.push_error_toast(
                        "Could not open cache".to_owned(),
                        Some(message.clone()),
                        None,
                        now,
                    );
                }
            },
            _ => {},
        }
        self.state.set_folder_result(result);
        if !is_error {
            self.state.recent_projects.push(folder, now_secs);
        }
        self.state.recent_banner = None;
        !is_error
    }

    /// The path of the recent project at a place.
    pub fn recent_path(&self, idx: usize) -> (r: Option<String>)
        ensures
            match r {
                Some(path) => idx < self.state.recent_projects.entries@.len() && path@
                    == self.state.recent_projects.entries@[idx as int].path@,
                None => idx >= self.state.recent_projects.entries@.len(),
            },
    {
        if idx < self.state.recent_projects.entries.len() {
            Some(self.state.recent_projects.entries[idx].path.clone())
        } else {
            None
        }
    }

    /// Chooses the recent project at a place. One that is gone, because no folder
    /// is there any more, is announced and stays in the list.
    pub fn open_recent(&mut self, idx: usize, is_dir: bool, now: u64) -> (r: RecentChoice)
        requires
            room_for_toasts(old(self).state, 1, now),
        ensures
            match r {
                RecentChoice::Nothing => idx >= old(self).state.recent_projects.entries@.len()
                    && *final(self) == *old(self),
                RecentChoice::Open(path) => {
                    &&& idx < old(self).state.recent_projects.entries@.len()
                    &&& is_dir
                    &&& path@ == old(self).state.recent_projects.entries@[idx as int].path@
                    &&& *final(self) == *old(self)
                },
                RecentChoice::Announced => {
                    let path = old(self).state.recent_projects.entries@[idx as int].path@;
                    &&& idx < old(self).state.recent_projects.entries@.len()
                    &&& !is_dir
                    &&& final(self).state == (AppState {
                        toasts: final(self).state.toasts,
                        recent_banner: final(self).state.recent_banner,
                        ..old(self).state
                    })
                    &&& final(self).state.recent_banner matches Some(banner) && banner.path@ == path
                    &&& toast_added(
                        old(self).state.toasts,
                        final(self).state.toasts,
                        ToastKind::Error,
                        ToastText {
                            title: stale_text(path),
                            body: None,
                            action: Some(("Remove from recents"@, ACTION_REMOVE_STALE_RECENT@)),
                        },
                        now,
                    )
                },
            },
    {
        match self.recent_path(idx) {
            None => RecentChoice::Nothing,
            Some(path) => {
                if self.state.recent_projects.entries[idx].is_stale(is_dir) {
                    self.state.push_error_toast(
                        stale_message(path.as_str()),
                        None,
                        Some(
                            ToastAction {
                                label: "Remove from recents".to_owned(),
                                action_name: ACTION_REMOVE_STALE_RECENT,
                            },
                        ),
                        now,
                    );
                    self.state.recent_banner = Some(RecentBanner { path });
                    RecentChoice::Announced
                } else {
                    RecentChoice::Open(path)
                }
            },
        }
    }

    /// Empties the list of recent projects.
    pub fn clear_recents(&mut self)
        ensures
            final(self).state.recent_projects.entries@.len() == 0,
            final(self).state == (AppState {
                recent_projects: final(self).state.recent_projects,
                recent_banner: None,
                ..old(self).state
            }),
    {
        self.state.recent_projects.clear();
        self.state.recent_banner = None;
    }

    /// Takes the project that was announced as gone out of the list, and returns
    /// whether there was one.
    pub fn remove_stale_recent(&mut self) -> (r: bool)
        ensures
            match old(self).state.recent_banner {
                Some(banner) => {
                    &&& r
                    &&& final(self).state.recent_projects.entries@ == without(
                        old(self).state.recent_projects.entries@,
                        banner.path@,
                    )
                    &&& final(self).state == (AppState {
                        recent_projects: final(self).state.recent_projects,
                        recent_banner: None,
                        ..old(self).state
                    })
                },
                None => !r && *final(self) == *old(self),
            },
    {
        let path: Option<String> = match &self.state.recent_banner {
            Some(banner) => Some(banner.path.clone()),
            None => None,
        };
        match path {
            Some(p) => {
                self.state.recent_projects.remove(p.as_str());
                self.state.recent_banner = None;
                true
            },
            None => false,
        }
    }

    /// Closes the notice that a recent project is gone.
    pub fn dismiss_recent_banner(&mut self)
        ensures
            final(self).state == (AppState { recent_banner: None, ..old(self).state }),
    {
        self.state.recent_banner = None;
    }

    /// Closes the notice that no editor was started.
    pub fn dismiss_editor_banner(&mut self)
        ensures
            final(self).state == (AppState { editor_banner: None, ..old(self).state }),
    {
        self.state.editor_banner = None;
    }

    /// Dismisses a toast.
    pub fn dismiss_toast(&mut self, id: u64)
        ensures
            final(self).state.toasts.toasts@ == old(self).state.toasts.toasts@.filter(
                |t: Toast| t.id != id,
            ),
            final(self).state.toasts.next_id == old(self).state.toasts.next_id,
            final(self).state == (AppState {
                toasts: final(self).state.toasts,
                ..old(self).state
            }),
    {
        let _ = self.state.toasts.dismiss(id);
    }

    /// Dismisses the newest toast, and returns whether there was one.
    pub fn dismiss_top_toast(&mut self) -> (r: bool)
        ensures
            r == (old(self).state.toasts.toasts@.len() > 0),
            final(self).state.toasts.toasts@ == if r {
                let top = old(self).state.toasts.toasts@.last().id;
                old(self).state.toasts.toasts@.filter(|t: Toast| t.id != top)
            } else {
                old(self).state.toasts.toasts@
            },
            final(self).state.toasts.next_id == old(self).state.toasts.next_id,
            final(self).state == (AppState {
                toasts: final(self).state.toasts,
                ..old(self).state
            }),
    {
        let n: usize = self.state.toasts.toasts.len();
        if n == 0 {
            return false;
        }
        let id: u64 = self.state.toasts.toasts[n - 1].id;
        self.dismiss_toast(id);
        true
    }

    /// Drops the toasts whose time is over, and returns whether there were any.
    pub fn tick_toasts(&mut self, now: u64) -> (r: bool)
        ensures
            final(self).state.toasts.toasts@ == old(self).state.toasts.toasts@.filter(
                |t: Toast| crate::toast::is_live(t, now),
            ),
            final(self).state.toasts.next_id == old(self).state.toasts.next_id,
            r == (final(self).state.toasts.toasts@.len() != old(self).state.toasts.toasts@.len()),
            final(self).state == (AppState {
                toasts: final(self).state.toasts,
                ..old(self).state
            }),
    {
        let before: usize = self.state.toasts.len();
        self.state.toasts.tick(now);
        before != self.state.toasts.len()
    }

    /// Takes the button of a toast: the toast goes, and the dialog of issues
    /// opens where the button asks for it. What else the button asks for is
    /// returned.
    pub fn dispatch_toast_action(&mut self, action_name: &str, toast_id: u64) -> (r: ToastCommand)
        ensures
            r == command_for(action_name@),
            final(self).state.toasts.toasts@ == old(self).state.toasts.toasts@.filter(
                |t: Toast| t.id != toast_id,
            ),
            final(self).state.toasts.next_id == old(self).state.toasts.next_id,
            final(self).state == (AppState {
                toasts: final(self).state.toasts,
                scan_issues_open: old(self).state.scan_issues_open || (r
                    == ToastCommand::ShowIssues && old(self).state.scan_issues@.len() > 0),
                ..old(self).state
            }),
    {
        self.dismiss_toast(toast_id);
        let command: ToastCommand = toast_command(action_name);
        if command == ToastCommand::ShowIssues {
            self.open_scan_issues();
        }
        command
    }

    /// Opens the dialog of issues, if there are any.
    pub fn open_scan_issues(&mut self)
        ensures
            final(self).state == (AppState {
                scan_issues_open: old(self).state.scan_issues_open || old(
                    self,
                ).state.scan_issues@.len() > 0,
                ..old(self).state
            }),
    {
        if self.state.scan_issues.len() > 0 {
            self.state.scan_issues_open = true;
        }
    }

    /// Closes the dialog of issues.
    pub fn close_scan_issues(&mut self)
        ensures
            final(self).state == (AppState { scan_issues_open: false, ..old(self).state }),
    {
        self.state.scan_issues_open = false;
    }

    /// The text of the issues for the clipboard, if there are any. That it was
    /// copied is announced.
    pub fn copy_scan_issues(&mut self, now: u64) -> (r: Option<String>)
        requires
            room_for_toasts(old(self).state, 1, now),
        ensures
            match r {
                Some(text) => {
                    &&& old(self).state.scan_issues@.len() > 0
                    &&& text@ == issue_block(
                        old(self).state.scan_issues@,
                        old(self).state.scan_issues@.len() as int,
                    )
                    &&& final(self).state == (AppState {
                        toasts: final(self).state.toasts,
                        ..old(self).state
                    })
                    &&& toast_added(
                        old(self).state.toasts,
                        final(self).state.toasts,
                        ToastKind::Info,
                        titled("Copied issues to clipboard."@),
                        now,
                    )
                },
                None => old(self).state.scan_issues@.len() == 0 && *final(self) == *old(self),
            },
    {
        if self.state.scan_issues.len() == 0 {
            return None;
        }
        let text: String = format_issues_clipboard(&self.state.scan_issues);
        self.state.push_info_toast("Copied issues to clipboard.".to_owned(), now);
        Some(text)
    }

    /// Announces how starting the editor on a broken configuration went.
    pub fn startup_fix_config(&mut self, editor: &str, failure: Option<&str>, now: u64)
        requires
            room_for_toasts(old(self).state, 1, now),
        ensures
            match (old(self).state.startup_error, failure) {
                (None, _) => *final(self) == *old(self),
                (Some(e), None) => {
                    &&& final(self).state == (AppState {
                        toasts: final(self).state.toasts,
                        ..old(self).state
                    })
                    &&& toast_added(
                        old(self).state.toasts,
                        final(self).state.toasts,
                        ToastKind::Info,
                        titled(
                            "Opened "@ + e.path@ + " in "@ + editor@
                                + ". Restart dedup to reload."@,
                        ),
                        now,
                    )
                },
                (Some(_), Some(cause)) => {
                    &&& final(self).state == (AppState {
                        toasts: final(self).state.toasts,
                        ..old(self).state
                    })
                    &&& toast_added(
                        old(self).state.toasts,
                        final(self).state.toasts,
                        ToastKind::Error,
                        titled(launch_failure(editor@, cause@)),
                        now,
                    )
                },
            },
    {
        let path: Option<String> = match &self.state.startup_error {
            Some(e) => Some(e.path.clone()),
            None => None,
        };
        if let Some(p) = path {
            match failure {
                None => {
                    let mut text: String = "Opened ".to_owned();
                    text.append(p.as_str());
                    text.append(" in ");
                    text.append(editor);
                    text.append(". Restart dedup to reload.");
                    self.state.push_info_toast(text, now);
                },
                Some(cause) => {
                    let text: String = launch_failure_message(editor, cause);
                    self.state.push_error_toast(text, None, None, now);
                },
            }
        }
    }

    /// Takes over how replacing a broken configuration by the default one went:
    /// a step that failed is announced; otherwise the configuration was read
    /// again, and the error is gone or replaced.
    pub fn startup_reset_config(&mut self, outcome: ResetOutcome, now: u64)
        requires
            room_for_toasts(old(self).state, 1, now),
        ensures
            match (old(self).state.startup_error, outcome) {
                (None, _) => *final(self) == *old(self),
                (Some(_), ResetOutcome::Failed(text)) => {
                    &&& final(self).state == (AppState {
                        toasts: final(self).state.toasts,
                        ..old(self).state
                    })
                    &&& toast_added(
                        old(self).state.toasts,
                        final(self).state.toasts,
                        ToastKind::Error,
                        titled(text@),
                        now,
                    )
                },
                (Some(_), ResetOutcome::Loaded) => {
                    &&& final(self).state == (AppState {
                        toasts: final(self).state.toasts,
                        startup_error: None,
                        ..old(self).state
                    })
                    &&& toast_added(
                        old(self).state.toasts,
                        final(self).state.toasts,
                        ToastKind::Info,
                        titled("Reset config to defaults."@),
                        now,
                    )
                },
                (Some(_), ResetOutcome::StillBroken(error)) => final(self).state == (AppState {
                    startup_error: Some(error),
                    ..old(self).state
                }),
            },
    {
        if self.state.startup_error.is_none() {
            return;
        }
        match outcome {
            ResetOutcome::Failed(text) => {
                self.state.push_error_toast(text, None, None, now);
            },
            ResetOutcome::Loaded => {
                self.state.startup_error = None;
                self.state.push_info_toast("Reset config to defaults.".to_owned(), now);
            },
            ResetOutcome::StillBroken(error) => {
                self.state.startup_error = Some(error);
            },
        }
    }

    /// The folder whose cache is to be deleted before it is opened again.
    pub fn cache_dir(&self) -> (r: Option<String>)
        ensures
            match (self.state.current_folder, r) {
                (Some(folder), Some(dir)) => dir@ == joined(folder@, ".dedup"@),
                (None, None) => true,
                _ => false,
            },
    {
        match &self.state.current_folder {
            Some(folder) => Some(join(folder.as_str(), ".dedup")),
            None => None,
        }
    }

    /// Announces that a cache could not be deleted.
    pub fn delete_cache_failed(&mut self, dir: &str, cause: &str, now: u64)
        requires
            room_for_toasts(old(self).state, 1, now),
        ensures
            final(self).state == (AppState {
                toasts: final(self).state.toasts,
                ..old(self).state
            }),
            toast_added(
                old(self).state.toasts,
                final(self).state.toasts,
                ToastKind::Error,
                titled("Failed to delete "@ + dir@ + ": "@ + cause@),
                now,
            ),
    {
        let mut text: String = "Failed to delete ".to_owned();
        text.append(dir);
        text.append(": ");
        text.append(cause);
        self.state.push_error_toast(text, None, None, now);
    }

    /// Opens the preferences.
    pub fn open_preferences(&mut self)
        ensures
            final(self).state == (AppState { preferences_open: true, ..old(self).state }),
    {
        self.state.preferences_open = true;
    }

    /// Closes the preferences.
    pub fn close_preferences(&mut self)
        ensures
            final(self).state == (AppState { preferences_open: false, ..old(self).state }),
    {
        self.state.preferences_open = false;
    }

    /// Takes over how starting an editor on the configuration went: the
    /// preferences close, or a notice says what failed.
    pub fn open_config_in_editor(&mut self, failure: Option<String>)
        ensures
            match failure {
                None => final(self).state == (AppState {
                    preferences_open: false,
                    ..old(self).state
                }),
                Some(message) => final(self).state == (AppState {
                    editor_banner: Some(EditorBanner { message }),
                    ..old(self).state
                }),
            },
    {
        match failure {
            None => {
                self.state.preferences_open = false;
            },
            Some(message) => {
                self.state.editor_banner = Some(EditorBanner { message });
            },
        }
    }

    /// Announces that no editor was started.
    pub fn editor_failed(&mut self, message: &str, now: u64)
        requires
            room_for_toasts(old(self).state, 1, now),
        ensures
            final(self).state == (AppState {
                toasts: final(self).state.toasts,
                editor_banner: final(self).state.editor_banner,
                ..old(self).state
            }),
            final(self).state.editor_banner matches Some(banner) && banner.message@ == message@,
            toast_added(
                old(self).state.toasts,
                final(self).state.toasts,
                ToastKind::Error,
                titled(message@),
                now,
            ),
    {
        self.state.push_error_toast(message.to_owned(), None, None, now);
        self.state.editor_banner = Some(EditorBanner { message: message.to_owned() });
    }

    /// Selects a group. One that was dismissed also moves the focus to the
    /// detail pane.
    pub fn select_group(&mut self, id: i64)
        ensures
            final(self).state == (AppState {
                selected_group: Some(id),
                focused_pane: if dismissed_from(old(self).state.dismissed@, id, 0) is Some {
                    Pane::Detail
                } else {
                    old(self).state.focused_pane
                },
                ..old(self).state
            }),
    {
        let dismissed: bool = self.state.dismissed_by_id(id).is_some();
        self.state.selected_group = Some(id);
        if dismissed {
            self.state.focused_pane = Pane::Detail;
        }
    }

    /// Opens the list of dismissed groups, or closes it.
    pub fn toggle_dismissed(&mut self)
        ensures
            final(self).state == (AppState {
                dismissed_expanded: !old(self).state.dismissed_expanded,
                ..old(self).state
            }),
    {
        self.state.dismissed_expanded = !self.state.dismissed_expanded;
    }

    /// Begins a scan of the open folder and returns the folder. Without a folder,
    /// or while a scan runs, nothing happens.
    pub fn start_scan(&mut self, now: u64) -> (r: Option<String>)
        ensures
            match (old(self).state.current_folder, r) {
                (Some(folder), Some(path)) => {
                    &&& path@ == folder@
                    &&& !(old(self).state.scan_state is Running)
                    &&& !(old(self).state.scan_state is Cancelling)
                    &&& final(self).state.groups_streaming@.len() == 0
                    &&& final(self).state == (AppState {
                        scan_state: ScanState::Running { started_at: now },
                        groups_streaming: final(self).state.groups_streaming,
                        ..old(self).state
                    })
                },
                (Some(_), None) => (old(self).state.scan_state is Running || old(
                    self,
                ).state.scan_state is Cancelling) && *final(self) == *old(self),
                (None, None) => *final(self) == *old(self),
                (None, Some(_)) => false,
            },
            old(self).state.current_folder is Some ==> final(self).state.scan_state == scan_next(
                old(self).state.scan_state,
                ScanMove::Start(now),
            ),
    {
        let folder: String = match &self.state.current_folder {
            Some(f) => f.clone(),
            None => {
                return None;
            },
        };
        match self.state.begin_scan(now) {
            Some(_) => Some(folder),
            None => None,
        }
    }

    /// Scans the open folder again and returns the folder. Without a folder, or
    /// while a scan runs, nothing happens.
    pub fn rescan_current_folder(&mut self, now: u64) -> (r: Option<String>)
        ensures
            match (old(self).state.current_folder, r) {
                (Some(folder), Some(path)) => {
                    &&& path@ == folder@
                    &&& !(old(self).state.scan_state is Running)
                    &&& !(old(self).state.scan_state is Cancelling)
                    &&& final(self).state.groups_streaming@.len() == 0
                    &&& final(self).state == (AppState {
                        scan_state: ScanState::Running { started_at: now },
                        groups_streaming: final(self).state.groups_streaming,
                        ..old(self).state
                    })
                },
                (Some(_), None) => (old(self).state.scan_state is Running || old(
                    self,
                ).state.scan_state is Cancelling) && *final(self) == *old(self),
                (None, None) => *final(self) == *old(self),
                (None, Some(_)) => false,
            },
            old(self).state.current_folder is Some ==> final(self).state.scan_state == scan_next(
                old(self).state.scan_state,
                ScanMove::Start(now),
            ),
    {
        self.start_scan(now)
    }

    /// Asks a running scan to stop, and returns whether there was one.
    pub fn request_cancel(&mut self, now: u64) -> (r: bool)
        ensures
            r == (old(self).state.scan_state is Running),
            final(self).state == if r {
                AppState {
                    scan_state: ScanState::Cancelling { started_at: now },
                    ..old(self).state
                }
            } else {
                old(self).state
            },
            final(self).state.scan_state == scan_next(
                old(self).state.scan_state,
                ScanMove::Stop(now),
            ),
    {
        if !self.state.scan_state.is_running() {
            return false;
        }
        self.state.scan_state = ScanState::Cancelling { started_at: now };
        true
    }

    /// Moves the focus to the sidebar.
    pub fn focus_sidebar(&mut self)
        ensures
            final(self).state == (AppState { focused_pane: Pane::Sidebar, ..old(self).state }),
    {
        self.state.focused_pane = Pane::Sidebar;
    }

    /// Moves the focus to the detail pane.
    pub fn focus_detail(&mut self)
        ensures
            final(self).state == (AppState { focused_pane: Pane::Detail, ..old(self).state }),
    {
        self.state.focused_pane = Pane::Detail;
    }

    /// Leaves the search: the query is emptied.
    pub fn blur_search(&mut self)
        ensures
            final(self).state.search_query@.len() == 0,
            final(self).state == (AppState {
                search_query: final(self).state.search_query,
                ..old(self).state
            }),
    {
        self.state.set_search_query(String::new());
    }

    /// Adds a character to the query.
    pub fn search_input_push(&mut self, ch: char)
        ensures
            final(self).state.search_query@ == typed(old(self).state.search_query@, ch),
            final(self).state == (AppState {
                search_query: final(self).state.search_query,
                ..old(self).state
            }),
    {
        self.state.search_query.push(ch);
    }

    /// Takes the last character off the query, and returns whether there was one.
    pub fn search_input_backspace(&mut self) -> (r: bool)
        ensures
            r == (old(self).state.search_query@.len() > 0),
            final(self).state.search_query@ == if r {
                old(self).state.search_query@.drop_last()
            } else {
                old(self).state.search_query@
            },
            final(self).state == (AppState {
                search_query: final(self).state.search_query,
                ..old(self).state
            }),
    {
        let n: usize = self.state.search_query.as_str().unicode_len();
        if n == 0 {
            return false;
        }
        let shorter: String = self.state.search_query.as_str().substring_char(0, n - 1).to_owned();
        assert(shorter@ =~= old(self).state.search_query@.drop_last());
        self.state.set_search_query(shorter);
        true
    }

    /// The files and lines of the selected group to open in an editor, when the
    /// sidebar has the focus.
    pub fn open_selected_in_editor(&self) -> (r: Vec<(String, u32)>)
        ensures
            self.state.focused_pane != Pane::Sidebar ==> r@.len() == 0,
            self.state.focused_pane == Pane::Sidebar ==> {
                let shown = occurrences_shown(self.state);
                &&& r@.len() == shown.len()
                &&& forall|i: int|
                    0 <= i < r@.len() ==> (#[trigger] r@[i]).0@ == shown[i].path && r@[i].1
                        == pane_line(shown[i].start_line as i64)
            },
    {
        let mut out: Vec<(String, u32)> = Vec::new();
        if self.state.focused_pane != Pane::Sidebar {
            return out;
        }
        let shown: Vec<OccurrenceView> = self.state.selected_occurrences();
        let ghost models = occurrences_shown(self.state);
        let mut i: usize = 0;
        assert(crate::app_state::occurrence_models(shown@).len() == shown@.len());
        while i < shown.len()
            invariant
                i <= shown.len(),
                models.len() == shown@.len(),
                models == crate::app_state::occurrence_models(shown@),
                out@.len() == i,
                forall|k: int|
                    0 <= k < i ==> (#[trigger] out@[k]).0@ == models[k].path && out@[k].1
                        == pane_line(models[k].start_line as i64),
            decreases shown.len() - i,
        {
            assert(models[i as int] == shown@[i as int]@);
            out.push((shown[i].path.clone(), line_for_pane(shown[i].start_line)));
            i += 1;
        }
        out
    }

    /// Sorts the groups by another key, and closes the list of keys.
    pub fn set_sort_key(&mut self, key: SortKey)
        ensures
            final(self).state == (AppState {
                sort_key: key,
                sort_popup_open: false,
                ..old(self).state
            }),
    {
        self.state.sort_key = key;
        self.state.sort_popup_open = false;
    }

    /// Opens the list of sort keys, or closes it.
    pub fn toggle_sort_popup(&mut self)
        ensures
            final(self).state == (AppState {
                sort_popup_open: !old(self).state.sort_popup_open,
                ..old(self).state
            }),
    {
        self.state.sort_popup_open = !self.state.sort_popup_open;
    }

    /// Closes the list of sort keys.
    pub fn close_sort_popup(&mut self)
        ensures
            final(self).state == (AppState { sort_popup_open: false, ..old(self).state }),
    {
        self.state.sort_popup_open = false;
    }

    /// Hides the sidebar, or shows it.
    pub fn toggle_sidebar(&mut self)
        ensures
            final(self).state == (AppState {
                sidebar_hidden: !old(self).state.sidebar_hidden,
                ..old(self).state
            }),
    {
        self.state.sidebar_hidden = !self.state.sidebar_hidden;
    }

    /// Closes the detail pane: no group is selected any more.
    pub fn close_group_detail(&mut self)
        ensures
            final(self).state == (AppState { selected_group: None, ..old(self).state }),
    {
        self.state.selected_group = None;
    }

    /// The prompt for a group, from what could be read of the files of its
    /// occurrences. It is copied only if all could be read, and either is
    /// announced.
    pub fn copy_group_as_llm_prompt(
        &mut self,
        group_id: i64,
        sources: &Vec<Option<String>>,
        now: u64,
    ) -> (r: Option<String>)
        requires
            room_for_toasts(old(self).state, 1, now),
        ensures
            match group_from(old(self).state.groups@, group_id, 0) {
                Some(g) => {
                    let shown = visible_in(g, old(self).state.session_occurrence_dismissed@);
                    let whole = forall|i: int|
                        0 <= i < sources@.len() ==> (#[trigger] sources@[i]) is Some;
                    if shown.len() == 0 {
                        r is None && *final(self) == *old(self)
                    } else {
                        &&& final(self).state == (AppState {
                            toasts: final(self).state.toasts,
                            ..old(self).state
                        })
                        &&& if whole {
                            &&& r matches Some(prompt) && prompt@ == instruction(
                                shown.len(),
                                g.language,
                            ) + location_lines(shown, shown.len() as int)
                            &&& toast_added(
                                old(self).state.toasts,
                                final(self).state.toasts,
                                ToastKind::Info,
                                titled("Copied LLM prompt to clipboard."@),
                                now,
                            )
                        } else {
                            &&& r is None
                            &&& toast_added(
                                old(self).state.toasts,
                                final(self).state.toasts,
                                ToastKind::Warning,
                                titled(
                                    "Some source files are unavailable \u{2014} prompt not copied."@,
                                ),
                                now,
                            )
                        }
                    }
                },
                None => r is None && *final(self) == *old(self),
            },
    {
        let group: GroupView = match self.state.group_by_id(group_id) {
            Some(g) => g.clone(),
            None => {
                return None;
            },
        };
        let occurrences: Vec<OccurrenceView> = self.state.visible_occurrences_of(&group);
        assert(crate::app_state::occurrence_models(occurrences@).len() == occurrences@.len());
        if occurrences.len() == 0 {
            return None;
        }
        if !all_sources_available(sources) {
            self.state.push_warning_toast(
                "Some source files are unavailable \u{2014} prompt not copied.".to_owned(),
                now,
            );
            return None;
        }
        let prompt: String = llm_prompt(&group, &occurrences);
        self.state.push_info_toast("Copied LLM prompt to clipboard.".to_owned(), now);
        Some(prompt)
    }
}

/// What says that an editor could not be started.
pub open spec fn launch_failure(editor: Seq<char>, cause: Seq<char>) -> Seq<char> {
    "Failed to launch "@ + editor + ": "@ + cause
}

/// What says that an editor could not be started.
pub fn launch_failure_message(editor: &str, cause: &str) -> (r: String)
    ensures
        r@ == launch_failure(editor@, cause@),
{
    let mut text: String = "Failed to launch ".to_owned();
    text.append(editor);
    text.append(": ");
    text.append(cause);
    text
}

/// How replacing a broken configuration by the default one went.
#[derive(Debug)]
pub enum ResetOutcome {
    /// A file could not be written, with what to say of it.
    Failed(String),
    /// The configuration was read.
    Loaded,
    /// The configuration could not be read again.
    StillBroken(StartupError),
}

// ---------------------------------------------------------------------------
// Scans
// ---------------------------------------------------------------------------
/// What can happen to a scan, and when.
pub enum ScanMove {
    /// It is to begin.
    Start(u64),
    /// It is asked to stop.
    Stop(u64),
    /// It reports something and goes on.
    Report,
    /// It is done, with so many groups and files.
    Finish { group_count: usize, file_count: usize, now: u64 },
    /// It has ended without a result.
    End,
    /// It reports nothing more.
    Lost,
    /// The announcement of its result is taken away.
    Dismiss,
}

/// How far a scan is after what happened to it.
pub open spec fn scan_next(scan: ScanState, what: ScanMove) -> ScanState {
    match what {
        ScanMove::Start(now) => if scan is Running || scan is Cancelling {
            scan
        } else {
            ScanState::Running { started_at: now }
        },
        ScanMove::Stop(now) => if scan is Running {
            ScanState::Cancelling { started_at: now }
        } else {
            scan
        },
        ScanMove::Report => scan,
        ScanMove::Finish { group_count, file_count, now } => ScanState::Completed {
            group_count,
            file_count,
            duration: scan_time(scan, now),
        },
        ScanMove::End => ScanState::Idle,
        ScanMove::Lost => if scan is Running || scan is Cancelling {
            ScanState::Idle
        } else {
            scan
        },
        ScanMove::Dismiss => if scan is Completed {
            ScanState::Idle
        } else {
            scan
        },
    }
}

/// What an event that a scan reports does to it.
pub open spec fn event_move(event: ScanEvent, now: u64) -> ScanMove {
    match event {
        ScanEvent::TierAStream(_) => ScanMove::Report,
        ScanEvent::Completed { group_count, file_count, .. } => ScanMove::Finish {
            group_count,
            file_count,
            now,
        },
        ScanEvent::Cancelled => ScanMove::End,
        ScanEvent::ScanFailed(_) => ScanMove::Report,
        ScanEvent::BackgroundPanic(_) => ScanMove::End,
    }
}

/// A scan begins where none runs, and where one runs it goes on as it was.
pub proof fn law_one_scan_at_a_time(scan: ScanState, now: u64)
    ensures
        scan is Running || scan is Cancelling ==> scan_next(scan, ScanMove::Start(now)) == scan,
        scan is Idle || scan is Completed ==> scan_next(scan, ScanMove::Start(now)) == (
        ScanState::Running { started_at: now }),
{
}

/// A scan that was begun and asked to stop is being stopped until it has ended or
/// reports nothing more. Nothing else can be asked to stop.
pub proof fn law_scan_is_stopped(started_at: u64, now: u64, scan: ScanState)
    ensures
        ({
            let asked = scan_next(ScanState::Running { started_at }, ScanMove::Stop(now));
            &&& asked == (ScanState::Cancelling { started_at: now })
            &&& scan_next(asked, ScanMove::Report) == asked
            &&& scan_next(asked, ScanMove::Stop(now)) == asked
            &&& scan_next(asked, ScanMove::End) is Idle
            &&& scan_next(asked, ScanMove::Lost) is Idle
        }),
        scan !is Running ==> scan_next(scan, ScanMove::Stop(now)) == scan,
{
}

/// A scan that is done says what it has found and how long it ran, from its
/// beginning on. This stays until it is dismissed or the next scan begins,
/// whether it reports nothing more or is asked to stop.
pub proof fn law_scan_is_done(
    started_at: u64,
    now: u64,
    later: u64,
    group_count: usize,
    file_count: usize,
)
    requires
        started_at <= now,
    ensures
        ({
            let running = ScanState::Running { started_at };
            let done = scan_next(running, ScanMove::Finish { group_count, file_count, now });
            &&& done is Completed
            &&& done->group_count == group_count
            &&& done->file_count == file_count
            &&& started_at + done->duration == now
            &&& scan_next(done, ScanMove::Lost) == done
            &&& scan_next(done, ScanMove::Stop(later)) == done
            &&& scan_next(done, ScanMove::Report) == done
            &&& scan_next(done, ScanMove::Dismiss) is Idle
            &&& scan_next(running, ScanMove::Dismiss) == running
            &&& scan_next(running, ScanMove::Report) == running
            &&& scan_next(running, ScanMove::Lost) is Idle
            &&& scan_next(running, ScanMove::End) is Idle
        }),
{
}

/// A scan goes on after what it has found and after a failure, which a result may
/// follow. It ends with a result, when it has stopped and when it panicked.
pub proof fn law_events_of_scans(event: ScanEvent, now: u64, scan: ScanState)
    ensures
        event is TierAStream || event is ScanFailed ==> scan_next(scan, event_move(event, now))
            == scan,
        event is Cancelled || event is BackgroundPanic ==> scan_next(
            scan,
            event_move(event, now),
        ) is Idle,
        event is Completed ==> {
            let done = scan_next(scan, event_move(event, now));
            &&& done is Completed
            &&& done->group_count == event->group_count
            &&& done->file_count == event->file_count
        },
{
}

impl AppState {
    /// Begins a scan, unless one runs.
    pub fn begin_scan(&mut self, now: u64) -> (r: Option<ScanHandles>)
        ensures
            match r {
                Some(handles) => {
                    &&& handles.started_at == now
                    &&& !(old(self).scan_state is Running)
                    &&& !(old(self).scan_state is Cancelling)
                    &&& final(self).groups_streaming@.len() == 0
                    &&& *final(self) == (AppState {
                        scan_state: ScanState::Running { started_at: now },
                        groups_streaming: final(self).groups_streaming,
                        ..*old(self)
                    })
                },
                None => (old(self).scan_state is Running || old(self).scan_state is Cancelling)
                    && *final(self) == *old(self),
            },
            final(self).scan_state == scan_next(old(self).scan_state, ScanMove::Start(now)),
    {
        if self.scan_state.is_active() {
            return None;
        }
        self.groups_streaming = Vec::new();
        self.scan_state = ScanState::Running { started_at: now };
        Some(ScanHandles { started_at: now })
    }

    /// Ends a scan without a result.
    pub fn cancel_completed(&mut self)
        ensures
            final(self).groups_streaming@.len() == 0,
            *final(self) == (AppState {
                scan_state: ScanState::Idle,
                groups_streaming: final(self).groups_streaming,
                ..*old(self)
            }),
            final(self).scan_state == scan_next(old(self).scan_state, ScanMove::End),
    {
        self.groups_streaming = Vec::new();
        self.scan_state = ScanState::Idle;
    }

    /// Takes the announcement of a result away, if there is one.
    pub fn dismiss_completion(&mut self)
        ensures
            *final(self) == (AppState {
                scan_state: if old(self).scan_state is Completed {
                    ScanState::Idle
                } else {
                    old(self).scan_state
                },
                ..*old(self)
            }),
            final(self).scan_state == scan_next(old(self).scan_state, ScanMove::Dismiss),
    {
        if let ScanState::Completed { .. } = self.scan_state {
            self.scan_state = ScanState::Idle;
        }
    }
}

/// How long a scan ran.
pub open spec fn scan_time(scan: ScanState, now: u64) -> u64 {
    match scan {
        ScanState::Running { started_at } => if now >= started_at {
            (now - started_at) as u64
        } else {
            0
        },
        _ => 0,
    }
}

impl ProjectView {
    /// Takes over what a running scan reports, and returns what happens next. A
    /// result ends the scan and is announced, and its issues are too. A failure is
    /// announced alone, since a result that could not be stored may follow it;
    /// where nothing follows, [`ProjectView::on_scan_disconnected`] ends the scan.
    pub fn on_scan_event(&mut self, event: ScanEvent, now: u64) -> (r: ScanStep)
        requires
            room_for_toasts(old(self).state, 2, now),
        ensures
            final(self).state.scan_state == scan_next(
                old(self).state.scan_state,
                event_move(event, now),
            ),
            match event {
                ScanEvent::TierAStream(groups) => {
                    &&& r == ScanStep::Continue
                    &&& final(self).state.groups_streaming@ == old(self).state.groups_streaming@
                        + groups@
                    &&& final(self).state == (AppState {
                        groups_streaming: final(self).state.groups_streaming,
                        ..old(self).state
                    })
                },
                ScanEvent::Completed { group_count, file_count, issues } => {
                    let said = completion_text(
                        group_count,
                        file_count,
                        scan_time(old(self).state.scan_state, now),
                    );
                    &&& r == ScanStep::Reload
                    &&& final(self).state == (AppState {
                        scan_state: ScanState::Completed {
                            group_count,
                            file_count,
                            duration: scan_time(old(self).state.scan_state, now),
                        },
                        scan_issues: issues,
                        toasts: final(self).state.toasts,
                        ..old(self).state
                    })
                    &&& if issues@.len() == 0 {
                        toast_added(
                            old(self).state.toasts,
                            final(self).state.toasts,
                            ToastKind::Info,
                            titled(said),
                            now,
                        )
                    } else {
                        exists|middle: ToastStack| #[trigger]
                            toast_added(
                                old(self).state.toasts,
                                middle,
                                ToastKind::Info,
                                titled(said),
                                now,
                            ) && toast_added(
                                middle,
                                final(self).state.toasts,
                                ToastKind::Info,
                                ToastText {
                                    title: issues_text(issues@.len()),
                                    body: None,
                                    action: Some(("View issues"@, ACTION_SHOW_ISSUES@)),
                                },
                                now,
                            )
                    }
                },
                ScanEvent::Cancelled => {
                    &&& r == ScanStep::Done
                    &&& final(self).state.groups_streaming@.len() == 0
                    &&& final(self).state == (AppState {
                        scan_state: ScanState::Idle,
                        groups_streaming: final(self).state.groups_streaming,
                        ..old(self).state
                    })
                },
                ScanEvent::ScanFailed(message) => {
                    &&& r == ScanStep::Continue
                    &&& final(self).state == (AppState {
                        toasts: final(self).state.toasts,
                        ..old(self).state
                    })
                    &&& toast_added(
                        old(self).state.toasts,
                        final(self).state.toasts,
                        ToastKind::Error,
                        ToastText { title: "Scan failed"@, body: Some(message@), action: None },
                        now,
                    )
                },
                ScanEvent::BackgroundPanic(message) => {
                    &&& r == ScanStep::Done
                    &&& final(self).state.groups_streaming@.len() == 0
                    &&& final(self).state == (AppState {
                        scan_state: ScanState::Idle,
                        groups_streaming: final(self).state.groups_streaming,
                        toasts: final(self).state.toasts,
                        ..old(self).state
                    })
                    &&& toast_added(
                        old(self).state.toasts,
                        final(self).state.toasts,
                        ToastKind::Error,
                        ToastText {
                            title: "Scan crashed (background panic)"@,
                            body: Some(message@),
                            action: None,
                        },
                        now,
                    )
                },
            },
    {
        match event {
            ScanEvent::TierAStream(groups) => {
                let mut more: Vec<GroupView> = groups;
                self.state.groups_streaming.append(&mut more);
                ScanStep::Continue
            },
            ScanEvent::Completed { group_count, file_count, issues } => {
                let duration: u64 = match self.state.scan_state {
                    ScanState::Running { started_at } => if now >= started_at {
                        now - started_at
                    } else {
                        0
                    },
                    _ => 0,
                };
                self.state.scan_state = ScanState::Completed { group_count, file_count, duration };
                self.state.push_info_toast(
                    format_completion_banner(group_count, file_count, duration),
                    now,
                );
                let ghost middle = self.state.toasts;
                let count: usize = issues.len();
                self.state.scan_issues = issues;
                if count > 0 {
                    self.state.show_toast(
                        ToastKind::Info,
                        issues_headline(count),
                        None,
                        Some(
                            ToastAction {
                                label: "View issues".to_owned(),
                                action_name: ACTION_SHOW_ISSUES,
                            },
                        ),
                        now,
                    );
                    assert(toast_added(
                        old(self).state.toasts,
                        middle,
                        ToastKind::Info,
                        titled(completion_text(group_count, file_count, duration)),
                        now,
                    ));
                }
                ScanStep::Reload
            },
            ScanEvent::Cancelled => {
                self.state.cancel_completed();
                ScanStep::Done
            },
            ScanEvent::ScanFailed(message) => {
                self.state.push_error_toast("Scan failed".to_owned(), Some(message), None, now);
                ScanStep::Continue
            },
            ScanEvent::BackgroundPanic(message) => {
                self.state.push_error_toast(
                    "Scan crashed (background panic)".to_owned(),
                    Some(message),
                    None,
                    now,
                );
                self.state.cancel_completed();
                ScanStep::Done
            },
        }
    }

    /// Takes over that a scan will report nothing more: one that is still taken
    /// to run is over.
    pub fn on_scan_disconnected(&mut self)
        ensures
            if old(self).state.scan_state is Running || old(self).state.scan_state is Cancelling {
                &&& final(self).state.groups_streaming@.len() == 0
                &&& final(self).state == (AppState {
                    scan_state: ScanState::Idle,
                    groups_streaming: final(self).state.groups_streaming,
                    ..old(self).state
                })
            } else {
                *final(self) == *old(self)
            },
            final(self).state.scan_state == scan_next(old(self).state.scan_state, ScanMove::Lost),
    {
        if self.state.scan_state.is_active() {
            self.state.cancel_completed();
        }
    }
}

// ---------------------------------------------------------------------------
// What the window shows
// ---------------------------------------------------------------------------
/// The models of a list of groups that is filtered by tier.
pub open spec fn of_tier(list: Seq<crate::app_state::GroupModel>, tier: Tier) -> Seq<
    crate::app_state::GroupModel,
> {
    list.filter(|g: crate::app_state::GroupModel| g.tier == tier)
}

/// The groups of a list that were found in one way.
fn copy_tier(list: &Vec<GroupView>, tier: Tier) -> (r: Vec<GroupView>)
    ensures
        crate::app_state::group_models(r@) == of_tier(
            crate::app_state::group_models(list@),
            tier,
        ),
{
    let ghost all = crate::app_state::group_models(list@);
    let ghost keep = |g: crate::app_state::GroupModel| g.tier == tier;
    let mut out: Vec<GroupView> = Vec::new();
    let mut i: usize = 0;
    proof {
        reveal(Seq::filter);
        assert(crate::app_state::group_models(out@) =~= all.take(0).filter(keep));
    }
    while i < list.len()
        invariant
            i <= list.len(),
            all == crate::app_state::group_models(list@),
            keep == (|g: crate::app_state::GroupModel| g.tier == tier),
            crate::app_state::group_models(out@) == all.take(i as int).filter(keep),
        decreases list.len() - i,
    {
        let ghost before = crate::app_state::group_models(out@);
        proof {
            crate::toast::lemma_filter_step(all, keep, i as int);
            assert(all[i as int] == list@[i as int]@);
        }
        if list[i].tier == tier {
            let copy: GroupView = list[i].clone();
            out.push(copy);
            assert(crate::app_state::group_models(out@) =~= before.push(copy@));
        }
        i += 1;
    }
    assert(all.take(i as int) =~= all);
    out
}

/// A copy of a list of groups.
fn copy_groups(list: &Vec<GroupView>) -> (r: Vec<GroupView>)
    ensures
        crate::app_state::group_models(r@) == crate::app_state::group_models(list@),
{
    let mut out: Vec<GroupView> = Vec::new();
    let mut i: usize = 0;
    while i < list.len()
        invariant
            i <= list.len(),
            out@.len() == i,
            forall|k: int| 0 <= k < i ==> (#[trigger] out@[k])@ == list@[k]@,
        decreases list.len() - i,
    {
        out.push(list[i].clone());
        i += 1;
    }
    assert(crate::app_state::group_models(out@) =~= crate::app_state::group_models(list@));
    out
}

/// The groups in the two lists of the sidebar: those found by their syntax
/// trees, and those found as text. While a scan runs, the second list holds what
/// the scan has found so far, and the search and the order are left aside.
pub open spec fn partition_of(state: AppState) -> (
    Seq<crate::app_state::GroupModel>,
    Seq<crate::app_state::GroupModel>,
) {
    let found = crate::app_state::groups_shown(state);
    if state.scan_state is Running {
        (
            of_tier(crate::app_state::group_models(state.groups@), Tier::B),
            crate::app_state::group_models(state.groups_streaming@),
        )
    } else {
        (of_tier(found, Tier::B), of_tier(found, Tier::A))
    }
}

/// The groups in the two lists of the sidebar.
pub fn sidebar_tier_partition(state: &AppState) -> (r: (Vec<GroupView>, Vec<GroupView>))
    ensures
        crate::app_state::group_models(r.0@) == partition_of(*state).0,
        crate::app_state::group_models(r.1@) == partition_of(*state).1,
{
    if state.scan_state.is_running() {
        (copy_tier(&state.groups, Tier::B), copy_groups(&state.groups_streaming))
    } else {
        let visible: Vec<GroupView> = state.visible_groups();
        (copy_tier(&visible, Tier::B), copy_tier(&visible, Tier::A))
    }
}

/// What the head of an occurrence shows of a change: who made it and when, and
/// what it says of itself, if it says anything.
pub open spec fn blame_texts(info: Option<BlameModel>) -> (Option<Seq<char>>, Option<Seq<char>>) {
    match info {
        Some(b) => (
            Some(b.author + " · "@ + b.short_sha + " · "@ + b.date),
            if b.summary.len() == 0 {
                None
            } else {
                Some(b.summary)
            },
        ),
        None => (None, None),
    }
}

/// What the head of an occurrence shows of a change.
pub fn blame_to_fields(info: Option<BlameInfo>) -> (r: (Option<String>, Option<String>))
    ensures
        (rows::opt_chars(r.0), rows::opt_chars(r.1)) == blame_texts(opt_blame(info)),
{
    match info {
        Some(b) => {
            let overlay: String = b.overlay_text();
            let tooltip: Option<String> = if b.summary.as_str().is_empty() {
                None
            } else {
                Some(b.summary.clone())
            };
            (Some(overlay), tooltip)
        },
        None => (None, None),
    }
}

/// What the head of an occurrence shows of the last change of its first line,
/// from the cache of answers or from `provider`. Without a folder there is
/// nothing to show.
pub fn fetch_blame_for_occurrence<P: BlameProvider>(
    state: &mut AppState,
    provider: &P,
    occ: &OccurrenceView,
    mtime: Option<i128>,
) -> (r: (Option<String>, Option<String>))
    ensures
        *final(state) == (AppState { blame_cache: final(state).blame_cache, ..*old(state) }),
        match old(state).current_folder {
            None => r.0 is None && r.1 is None && final(state).blame_cache == old(state).blame_cache,
            Some(folder) => forall|key: BlameCacheKey|
                key.path@ == joined(folder@, occ.path@) && key.start_line == pane_line(
                    occ.start_line,
                ) && key.mtime == mtime ==> {
                    let before = stored(old(state).blame_cache.entries@, key);
                    let after = #[trigger] stored(final(state).blame_cache.entries@, key);
                    &&& after is Some
                    &&& (rows::opt_chars(r.0), rows::opt_chars(r.1)) == blame_texts(after->0)
                    &&& before is Some ==> final(state).blame_cache.entries@ == old(
                        state,
                    ).blame_cache.entries@
                    &&& before is None ==> exists|dir: &str, rel: &str, line: u32, res: BlameResult|
                        dir@ == folder@ && rel@ == occ.path@ && line == pane_line(occ.start_line)
                            && #[trigger] call_ensures(P::blame, (provider, dir, rel, line), res)
                            && after->0 == answered(res)
                    &&& forall|k: BlameCacheKey|
                        !same_key(key, k) ==> #[trigger] stored(
                            final(state).blame_cache.entries@,
                            k,
                        ) == stored(old(state).blame_cache.entries@, k)
                },
        },
{
    let folder: String = match &state.current_folder {
        Some(f) => f.clone(),
        None => {
            return (None, None);
        },
    };
    let line: u32 = line_for_pane(occ.start_line);
    let path: String = join(folder.as_str(), occ.path.as_str());
    let info: Option<BlameInfo> = fetch_with_cache(
        provider,
        &mut state.blame_cache,
        folder.as_str(),
        occ.path.as_str(),
        line,
        path.as_str(),
        mtime,
    );
    proof {
        assert forall|key: BlameCacheKey|
            key.path@ == path@ && key.start_line == line && key.mtime == mtime implies {
            let before = stored(old(state).blame_cache.entries@, key);
            let after = #[trigger] stored(state.blame_cache.entries@, key);
            &&& after == Some(opt_blame(info))
            &&& before is None ==> exists|dir: &str, rel: &str, line: u32, res: BlameResult|
                dir@ == folder@ && rel@ == occ.path@ && line == pane_line(occ.start_line)
                    && #[trigger] call_ensures(P::blame, (provider, dir, rel, line), res)
                    && after->0 == answered(res)
        } by {
            assert(stored(old(state).blame_cache.entries@, key) is Some || stored(
                old(state).blame_cache.entries@,
                key,
            ) is None);
        }
    }
    blame_to_fields(info)
}

/// Whether the prompt for a group can be copied: a folder is open, and each of
/// the occurrences of the group that are shown has its file. `exist` says so of
/// each.
pub fn llm_sources_available(state: &AppState, group_id: i64, exist: &Vec<bool>) -> (r: bool)
    ensures
        r == (state.current_folder is Some && match group_from(state.groups@, group_id, 0) {
            Some(g) => {
                let n = visible_in(g, state.session_occurrence_dismissed@).len();
                n > 0 && n == exist@.len() && forall|i: int|
                    0 <= i < exist@.len() ==> #[trigger] exist@[i]
            },
            None => false,
        }),
{
    if state.current_folder.is_none() {
        return false;
    }
    match state.group_by_id(group_id) {
        Some(g) => {
            let shown: Vec<OccurrenceView> = state.visible_occurrences_of(g);
            assert(crate::app_state::occurrence_models(shown@).len() == shown@.len());
            if shown.len() == 0 || shown.len() != exist.len() {
                return false;
            }
            let mut i: usize = 0;
            while i < exist.len()
                invariant
                    i <= exist.len(),
                    forall|k: int| 0 <= k < i ==> #[trigger] exist@[k],
                decreases exist.len() - i,
            {
                if !exist[i] {
                    assert(!exist@[i as int]);
                    return false;
                }
                i += 1;
            }
            true
        },
        None => false,
    }
}

/// The letter on the badge of a tier.
pub fn tier_badge_label(tier: Tier) -> (r: &'static str)
    ensures
        r@ == match tier {
            Tier::A => "A"@,
            Tier::B => "B"@,
        },
{
    match tier {
        Tier::A => "A",
        Tier::B => "B",
    }
}

/// What the badge of a tier says when the pointer rests on it.
pub fn tier_badge_tooltip(tier: Tier) -> (r: &'static str)
    ensures
        r@ == match tier {
            Tier::A => "Tier A \u{2014} byte-level match"@,
            Tier::B => "Tier B \u{2014} AST match, alpha-renamed locals may differ"@,
        },
{
    match tier {
        Tier::A => "Tier A \u{2014} byte-level match",
        Tier::B => "Tier B \u{2014} AST match, alpha-renamed locals may differ",
    }
}

/// A new toast stands behind the others, which stay as they are. It has a number
/// of its own, says what it is to say, and goes after three seconds, after five
/// where it warns, and never by itself where it tells of an error.
pub proof fn law_toast_is_shown(
    old: ToastStack,
    new: ToastStack,
    kind: ToastKind,
    text: ToastText,
    now: u64,
)
    requires
        toast_added(old, new, kind, text, now),
    ensures
        ({
            let t = new.toasts@.last();
            &&& new.toasts@ == old.toasts@.push(t)
            &&& t.id == old.next_id
            &&& new.next_id == old.next_id + 1
            &&& t.kind == kind
            &&& t.title@ == text.title
            &&& t.body is Some <==> text.body is Some
            &&& t.body is Some ==> t.body->0@ == text.body->0
            &&& match text.action {
                Some((label, name)) => t.action is Some && t.action->0.label@ == label
                    && t.action->0.action_name@ == name,
                None => t.action is None,
            }
            &&& t.created_at == now
            &&& match kind {
                ToastKind::Error => t.auto_dismiss_at is None,
                ToastKind::Warning => t.auto_dismiss_at == Some((now + 5000) as u64),
                ToastKind::Info => t.auto_dismiss_at == Some((now + 3000) as u64),
            }
        }),
{
    assert(new.toasts@ =~= old.toasts@.push(new.toasts@.last()));
}

/// What is said of a folder that is gone, of files with issues and of an editor
/// that could not be started names them.
pub proof fn law_notices(path: Seq<char>, count: nat, editor: Seq<char>, cause: Seq<char>)
    ensures
        stale_text(path) == "Couldn\u{2019}t open "@ + path
            + " \u{2014} it may have been moved or deleted."@,
        issues_text(count) == dec(count) + " files had issues"@,
        launch_failure(editor, cause) == "Failed to launch "@ + editor + ": "@ + cause,
{
}

/// An error speaks of damage where it holds one of two phrases, whatever the size
/// of their letters.
pub proof fn law_damage_is_read(before: Seq<char>, phrase: Seq<char>, after: Seq<char>)
    requires
        lower(phrase) == "corrupt"@ || lower(phrase) == "database disk image is malformed"@,
    ensures
        is_damage(before + phrase + after),
{
    let m = before + phrase + after;
    assert(lower(m) =~= lower(before) + lower(phrase) + lower(after));
    law_holds(lower(m), lower(phrase));
}

/// A cache of a newer version is offered to be written anew, a damaged one to be
/// deleted, and of any other failure the cause is told. Of a folder that opened,
/// nothing is said.
pub proof fn law_folder_notices(status: StatusModel)
    ensures
        folder_toast(status) is Some <==> status is NewerCache || status is Error,
        status is NewerCache ==> folder_toast(status)->0 == (ToastText {
            title: "Cache created by newer Dedup version. Rescan?"@,
            body: None,
            action: Some(("Rescan (overwrites cache)"@, ACTION_CACHE_RESCAN@)),
        }),
        status is Error && is_damage(status->Error_0) ==> folder_toast(status)->0 == (ToastText {
            title: "Cache is corrupted. Delete .dedup/ and rescan?"@,
            body: Some(status->Error_0),
            action: Some(("Delete .dedup/ and rescan"@, ACTION_CACHE_DELETE_AND_RESCAN@)),
        }),
        status is Error && !is_damage(status->Error_0) ==> folder_toast(status)->0 == (ToastText {
            title: "Could not open cache"@,
            body: Some(status->Error_0),
            action: None,
        }),
{
}

/// The editor that is named first is started, the other one where the first is
/// not named, and `vi` where neither is. An empty name names none.
pub proof fn law_editor(first: Seq<char>, second: Option<Seq<char>>)
    requires
        first.len() > 0,
    ensures
        editor_of(Some(first), second) == first,
        editor_of(None, Some(first)) == first,
        editor_of(Some(Seq::empty()), Some(first)) == first,
        editor_of(None, None) == seq!['v', 'i'],
        editor_of(Some(Seq::empty()), None) == seq!['v', 'i'],
        editor_of(None, Some(Seq::empty())) == seq!['v', 'i'],
        editor_of(Some(Seq::empty()), Some(Seq::empty())) == seq!['v', 'i'],
{
    reveal_strlit("vi");
    assert("vi"@ =~= seq!['v', 'i']);
}

/// A character that is typed stands at the end of the query.
pub proof fn law_typing(query: Seq<char>, c: char)
    ensures
        typed(query, c) == query + seq![c],
{
    assert(typed(query, c) =~= query + seq![c]);
}

/// A scan has run since it was started; one that does not run has run for no
/// time, nor has one that starts later.
pub proof fn law_scan_time(started_at: u64, now: u64, scan: ScanState)
    ensures
        started_at <= now ==> scan_time(ScanState::Running { started_at }, now) + started_at == now,
        started_at > now ==> scan_time(ScanState::Running { started_at }, now) == 0,
        scan !is Running ==> scan_time(scan, now) == 0,
{
}

/// Where no scan runs, the sidebar has every group that is found in one of its
/// two lists: those of syntax trees in the first, those of text in the second,
/// each in the order in which they are found.
pub proof fn law_sidebar_lists(state: AppState)
    requires
        state.scan_state !is Running,
    ensures
        ({
            let found = crate::app_state::groups_shown(state);
            let (functions, blocks) = partition_of(state);
            &&& functions == found.filter(
                |g: crate::app_state::GroupModel| g.tier == Tier::B,
            )
            &&& blocks == found.filter(|g: crate::app_state::GroupModel| g.tier == Tier::A)
            &&& functions.len() + blocks.len() == found.len()
        }),
{
    lemma_two_tiers(crate::app_state::groups_shown(state));
}

/// Every group is of one of the two tiers.
proof fn lemma_two_tiers(list: Seq<crate::app_state::GroupModel>)
    ensures
        of_tier(list, Tier::B).len() + of_tier(list, Tier::A).len() == list.len(),
    decreases list.len(),
{
    reveal(Seq::filter);
    if list.len() > 0 {
        lemma_two_tiers(list.drop_last());
        let t = list.last().tier;
        assert(t == Tier::A || t == Tier::B);
    }
}

/// While a scan runs, the sidebar has the groups of syntax trees from before and
/// all of what the scan has found so far.
pub proof fn law_sidebar_lists_of_scan(state: AppState)
    requires
        state.scan_state is Running,
    ensures
        partition_of(state).0 == crate::app_state::group_models(state.groups@).filter(
            |g: crate::app_state::GroupModel| g.tier == Tier::B,
        ),
        partition_of(state).1.len() == state.groups_streaming@.len(),
        forall|i: int|
            0 <= i < state.groups_streaming@.len() ==> #[trigger] partition_of(state).1[i]
                == state.groups_streaming@[i]@,
{
}

/// The head of an occurrence shows who changed it last, the change and its day;
/// and what the change says of itself, if it says anything.
pub proof fn law_blame_texts(b: BlameModel)
    ensures
        blame_texts(None) == (None::<Seq<char>>, None::<Seq<char>>),
        blame_texts(Some(b)).0 == Some(
            b.author + seq![' ', '·', ' '] + b.short_sha + seq![' ', '·', ' '] + b.date,
        ),
        b.summary.len() > 0 ==> blame_texts(Some(b)).1 == Some(b.summary),
        b.summary.len() == 0 ==> blame_texts(Some(b)).1 is None,
{
    reveal_strlit(" · ");
    assert(" · "@ =~= seq![' ', '·', ' ']);
}

/// An error that holds neither of the two phrases speaks of no damage.
pub proof fn law_other_errors_are_no_damage(message: Seq<char>)
    requires
        forall|a: Seq<char>, b: Seq<char>| lower(message) != #[trigger] (a + "corrupt"@ + b),
        forall|a: Seq<char>, b: Seq<char>|
            lower(message) != #[trigger] (a + "database disk image is malformed"@ + b),
    ensures
        !is_damage(message),
{
    law_holds(lower(message), "corrupt"@);
    law_holds(lower(message), "database disk image is malformed"@);
}

} // verus!
