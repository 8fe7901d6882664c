//! The parts of the main window: their texts, their colors and what they set
//! off.
use crate::app_state::{
    completion_text, dismissed_from, elapsed_text, format_completion_banner, format_elapsed,
    group_models, leading, occurrences_shown, AppState, AppStatus, GroupModel, GroupView,
    OccurrenceView, ScanState,
};
use crate::menubar::MenuAction;
use crate::paths::{file_name, file_name_of};
use crate::project_view::actions::{summary_of, summary_text};
use crate::project_view::rows::opt_chars;
use crate::project_view::{
    issues_headline, issues_text, partition_of, scan_next, sidebar_tier_partition, ScanMove,
};
use crate::suppressions_view::{dismissed_rows, is_row_of, DismissedRow};
use crate::text::{dec, dec_int, push_dec, push_dec_int, same_text};
use crate::toast::{kind_camel_label, kind_text, FileIssue, Toast, ToastKind};
use vstd::prelude::*;
use vstd::string::*;

verus! {

/// The color of text.
pub const ROW_TEXT: u32 = 0xe0e0e4;

/// The color of text that is less important.
pub const ROW_TEXT_DIM: u32 = 0xa0a0a8;

/// The color of what stands out.
pub const ACCENT: u32 = 0x3b82f6;

/// The color of what does not stand out.
pub const ACCENT_DIM: u32 = 0x2a2a34;

/// The background of a button of a toolbar.
pub const TOOLBAR_BUTTON_BG: u32 = 0x3b3b48;

/// The background of a button that hides something.
pub const TOOLBAR_DANGER_BG: u32 = 0x5a2a2a;

/// The background of a box that is not checked.
pub const CHECKBOX_UNCHECKED_BG: u32 = 0x444452;

/// The background of a toast with an error.
pub const TOAST_ERROR_BG: u32 = 0x4c1d1d;

/// The border of a toast with an error.
pub const TOAST_ERROR_BORDER: u32 = 0xdc2626;

/// The background of a toast with a warning.
pub const TOAST_WARNING_BG: u32 = 0x422c0f;

/// The border of a toast with a warning.
pub const TOAST_WARNING_BORDER: u32 = 0xf59e0b;

/// The background of a toast with an information.
pub const TOAST_INFO_BG: u32 = 0x1f2937;

/// The border of a toast with an information.
pub const TOAST_INFO_BORDER: u32 = 0x4b5563;

// ---------------------------------------------------------------------------
// What actions set off
// ---------------------------------------------------------------------------
/// What the main window does on an action.
#[derive(Debug, Clone, Copy, PartialEq, Eq, Structural)]
pub enum RootCommand {
    PickFolder,
    StartScan,
    RequestCancel,
    ToggleSidebar,
    FocusSidebar,
    FocusDetail,
    FindInSidebar,
    NextGroup,
    PrevGroup,
    ActivateGroup,
    DismissCurrentGroup,
    OpenSelectedInEditor,
    CollapseAll,
    ExpandAll,
    OpenRecent(usize),
    ClearRecents,
    RemoveStaleRecent,
    DismissRecentBanner,
    DismissEditorBanner,
    OpenPreferences,
    ClosePreferences,
    OpenConfigInEditor,
    DismissTopToast,
    OpenScanIssues,
    CloseScanIssues,
    CopyScanIssues,
    StartupFixConfig,
    StartupResetConfig,
    RescanCurrentFolder,
    DeleteCacheAndRescan,
    Quit,
    /// The action is only recorded in the log.
    LogOnly,
}

/// What the main window does on an action.
pub open spec fn command_of(action: MenuAction) -> RootCommand {
    match action {
        MenuAction::OpenFolder => RootCommand::PickFolder,
        MenuAction::StartScan => RootCommand::StartScan,
        MenuAction::StopScan => RootCommand::RequestCancel,
        MenuAction::ToggleSidebar => RootCommand::ToggleSidebar,
        MenuAction::FocusSidebar => RootCommand::FocusSidebar,
        MenuAction::FocusDetail => RootCommand::FocusDetail,
        MenuAction::FindInSidebar => RootCommand::FindInSidebar,
        MenuAction::NextGroup => RootCommand::NextGroup,
        MenuAction::PrevGroup => RootCommand::PrevGroup,
        MenuAction::ActivateGroup => RootCommand::ActivateGroup,
        MenuAction::DismissCurrentGroup => RootCommand::DismissCurrentGroup,
        MenuAction::OpenSelectedInEditor => RootCommand::OpenSelectedInEditor,
        MenuAction::CollapseAll => RootCommand::CollapseAll,
        MenuAction::ExpandAll => RootCommand::ExpandAll,
        MenuAction::OpenRecent0 => RootCommand::OpenRecent(0),
        MenuAction::OpenRecent1 => RootCommand::OpenRecent(1),
        MenuAction::OpenRecent2 => RootCommand::OpenRecent(2),
        MenuAction::OpenRecent3 => RootCommand::OpenRecent(3),
        MenuAction::OpenRecent4 => RootCommand::OpenRecent(4),
        MenuAction::ClearRecents => RootCommand::ClearRecents,
        MenuAction::RemoveStaleRecent => RootCommand::RemoveStaleRecent,
        MenuAction::DismissRecentBanner => RootCommand::DismissRecentBanner,
        MenuAction::DismissEditorBanner => RootCommand::DismissEditorBanner,
        MenuAction::Preferences => RootCommand::OpenPreferences,
        MenuAction::ClosePreferences => RootCommand::ClosePreferences,
        MenuAction::OpenConfigInEditor => RootCommand::OpenConfigInEditor,
        MenuAction::DismissTopToast => RootCommand::DismissTopToast,
        MenuAction::ShowScanIssues => RootCommand::OpenScanIssues,
        MenuAction::CloseScanIssues => RootCommand::CloseScanIssues,
        MenuAction::CopyScanIssues => RootCommand::CopyScanIssues,
        MenuAction::StartupFixConfig => RootCommand::StartupFixConfig,
        MenuAction::StartupResetConfig => RootCommand::StartupResetConfig,
        MenuAction::RescanCache => RootCommand::RescanCurrentFolder,
        MenuAction::DeleteCacheAndRescan => RootCommand::DeleteCacheAndRescan,
        MenuAction::Quit => RootCommand::Quit,
        _ => RootCommand::LogOnly,
    }
}

/// What the main window does on an action.
pub fn root_command(action: MenuAction) -> (r: RootCommand)
    ensures
        r == command_of(action),
{
    match action {
        MenuAction::OpenFolder => RootCommand::PickFolder,
        MenuAction::StartScan => RootCommand::StartScan,
        MenuAction::StopScan => RootCommand::RequestCancel,
        MenuAction::ToggleSidebar => RootCommand::ToggleSidebar,
        MenuAction::FocusSidebar => RootCommand::FocusSidebar,
        MenuAction::FocusDetail => RootCommand::FocusDetail,
        MenuAction::FindInSidebar => RootCommand::FindInSidebar,
        MenuAction::NextGroup => RootCommand::NextGroup,
        MenuAction::PrevGroup => RootCommand::PrevGroup,
        MenuAction::ActivateGroup => RootCommand::ActivateGroup,
        MenuAction::DismissCurrentGroup => RootCommand::DismissCurrentGroup,
        MenuAction::OpenSelectedInEditor => RootCommand::OpenSelectedInEditor,
        MenuAction::CollapseAll => RootCommand::CollapseAll,
        MenuAction::ExpandAll => RootCommand::ExpandAll,
        MenuAction::OpenRecent0 => RootCommand::OpenRecent(0),
        MenuAction::OpenRecent1 => RootCommand::OpenRecent(1),
        MenuAction::OpenRecent2 => RootCommand::OpenRecent(2),
        MenuAction::OpenRecent3 => RootCommand::OpenRecent(3),
        MenuAction::OpenRecent4 => RootCommand::OpenRecent(4),
        MenuAction::ClearRecents => RootCommand::ClearRecents,
        MenuAction::RemoveStaleRecent => RootCommand::RemoveStaleRecent,
        MenuAction::DismissRecentBanner => RootCommand::DismissRecentBanner,
        MenuAction::DismissEditorBanner => RootCommand::DismissEditorBanner,
        MenuAction::Preferences => RootCommand::OpenPreferences,
        MenuAction::ClosePreferences => RootCommand::ClosePreferences,
        MenuAction::OpenConfigInEditor => RootCommand::OpenConfigInEditor,
        MenuAction::DismissTopToast => RootCommand::DismissTopToast,
        MenuAction::ShowScanIssues => RootCommand::OpenScanIssues,
        MenuAction::CloseScanIssues => RootCommand::CloseScanIssues,
        MenuAction::CopyScanIssues => RootCommand::CopyScanIssues,
        MenuAction::StartupFixConfig => RootCommand::StartupFixConfig,
        MenuAction::StartupResetConfig => RootCommand::StartupResetConfig,
        MenuAction::RescanCache => RootCommand::RescanCurrentFolder,
        MenuAction::DeleteCacheAndRescan => RootCommand::DeleteCacheAndRescan,
        MenuAction::Quit => RootCommand::Quit,
        _ => RootCommand::LogOnly,
    }
}

/// The item of a recent project opens the project at its place.
pub proof fn law_recent_items_open_their_projects(i: int)
    requires
        0 <= i < crate::menubar::OPEN_RECENT_SLOTS,
    ensures
        command_of(crate::menubar::recent_action(i)) == RootCommand::OpenRecent(i as usize),
{
}

// ---------------------------------------------------------------------------
// Toolbars
// ---------------------------------------------------------------------------
/// What a button of a toolbar sets off.
#[derive(Debug, Clone, Copy, PartialEq, Eq, Structural)]
pub enum ToolbarCommand {
    OpenInEditor,
    DismissGroup,
    CopyPaths,
    CopyPrompt,
    CollapseAll,
    ExpandAll,
    Close,
}

/// A button of a toolbar.
#[derive(Debug, Clone, Copy)]
pub struct ToolbarButton {
    pub label: &'static str,
    pub tooltip: &'static str,
    pub bg: u32,
    pub fg: u32,
    /// Whether it can be clicked.
    pub enabled: bool,
    pub command: ToolbarCommand,
}

/// What a [`ToolbarButton`] stands for.
#[verifier::ext_equal]
pub struct ButtonModel {
    pub label: Seq<char>,
    pub tooltip: Seq<char>,
    pub bg: u32,
    pub fg: u32,
    pub enabled: bool,
    pub command: ToolbarCommand,
}

impl View for ToolbarButton {
    type V = ButtonModel;

    open spec fn view(&self) -> ButtonModel {
        ButtonModel {
            label: self.label@,
            tooltip: self.tooltip@,
            bg: self.bg,
            fg: self.fg,
            enabled: self.enabled,
            command: self.command,
        }
    }
}

/// A button that can be clicked.
pub open spec fn live_button(
    label: Seq<char>,
    tooltip: Seq<char>,
    bg: u32,
    command: ToolbarCommand,
) -> ButtonModel {
    ButtonModel { label, tooltip, bg, fg: ROW_TEXT, enabled: true, command }
}

/// The buttons over a group, from left to right. The prompt can be copied only
/// if every source can be read.
pub open spec fn toolbar_buttons(sources_ok: bool) -> Seq<ButtonModel> {
    seq![
        live_button(
            "Open in editor"@,
            "Open checked paths in your editor"@,
            TOOLBAR_BUTTON_BG,
            ToolbarCommand::OpenInEditor,
        ),
        live_button(
            "Dismiss group"@,
            "Dismiss this group (hide from sidebar)"@,
            TOOLBAR_DANGER_BG,
            ToolbarCommand::DismissGroup,
        ),
        live_button(
            "Copy paths"@,
            "Copy checked paths to clipboard"@,
            TOOLBAR_BUTTON_BG,
            ToolbarCommand::CopyPaths,
        ),
        if sources_ok {
            live_button(
                "Copy as LLM prompt"@,
                "Copy a markdown prompt containing every occurrence to the clipboard"@,
                TOOLBAR_BUTTON_BG,
                ToolbarCommand::CopyPrompt,
            )
        } else {
            ButtonModel {
                label: "Copy as LLM prompt"@,
                tooltip:
                    "One or more source files are unavailable \u{2014} can't build a complete prompt"@,
                bg: TOOLBAR_BUTTON_BG,
                fg: ROW_TEXT_DIM,
                enabled: false,
                command: ToolbarCommand::CopyPrompt,
            }
        },
        live_button(
            "Collapse all"@,
            "Collapse every occurrence in this group"@,
            TOOLBAR_BUTTON_BG,
            ToolbarCommand::CollapseAll,
        ),
        live_button(
            "Expand all"@,
            "Expand every occurrence in this group"@,
            TOOLBAR_BUTTON_BG,
            ToolbarCommand::ExpandAll,
        ),
        live_button(
            "\u{00D7}"@,
            "Close detail pane"@,
            TOOLBAR_BUTTON_BG,
            ToolbarCommand::Close,
        ),
    ]
}

/// The toolbar over a group.
#[derive(Debug)]
pub struct GroupToolbar {
    /// How many files and lines the group has.
    pub info: String,
    pub buttons: Vec<ToolbarButton>,
}

/// A number and a noun, which gets an `s` unless the number is one.
pub open spec fn counted(n: nat, noun: Seq<char>) -> Seq<char> {
    dec(n) + noun + if n == 1 {
        Seq::empty()
    } else {
        "s"@
    }
}

/// Appends a number and a noun.
fn push_counted(out: &mut String, n: u64, noun: &str)
    ensures
        final(out)@ == old(out)@ + counted(n as nat, noun@),
{
    push_dec(out, n);
    out.append(noun);
    if n != 1 {
        out.append("s");
    }
    assert(out@ =~= old(out)@ + counted(n as nat, noun@));
}

/// A button that can be clicked.
fn button(
    label: &'static str,
    tooltip: &'static str,
    bg: u32,
    command: ToolbarCommand,
) -> (r: ToolbarButton)
    ensures
        r@ == live_button(label@, tooltip@, bg, command),
{
    ToolbarButton { label, tooltip, bg, fg: ROW_TEXT, enabled: true, command }
}

/// The toolbar over a group of `files` files and `dup_lines` duplicated lines.
pub fn group_toolbar(files: u64, dup_lines: u64, sources_ok: bool) -> (r: GroupToolbar)
    ensures
        r.info@ == counted(files as nat, " file"@) + " \u{00B7} "@ + counted(
            dup_lines as nat,
            " duplicated line"@,
        ),
        r.buttons@.len() == toolbar_buttons(sources_ok).len(),
        forall|i: int|
            0 <= i < r.buttons@.len() ==> (#[trigger] r.buttons@[i])@ == toolbar_buttons(
                sources_ok,
            )[i],
{
    let mut info: String = String::new();
    push_counted(&mut info, files, " file");
    info.append(" \u{00B7} ");
    push_counted(&mut info, dup_lines, " duplicated line");
    assert(info@ =~= counted(files as nat, " file"@) + " \u{00B7} "@ + counted(
        dup_lines as nat,
        " duplicated line"@,
    ));
    let mut buttons: Vec<ToolbarButton> = Vec::new();
    buttons.push(
        button(
            "Open in editor",
            "Open checked paths in your editor",
            TOOLBAR_BUTTON_BG,
            ToolbarCommand::OpenInEditor,
        ),
    );
    buttons.push(
        button(
            "Dismiss group",
            "Dismiss this group (hide from sidebar)",
            TOOLBAR_DANGER_BG,
            ToolbarCommand::DismissGroup,
        ),
    );
    buttons.push(
        button(
            "Copy paths",
            "Copy checked paths to clipboard",
            TOOLBAR_BUTTON_BG,
            ToolbarCommand::CopyPaths,
        ),
    );
    if sources_ok {
        buttons.push(
            button(
                "Copy as LLM prompt",
                "Copy a markdown prompt containing every occurrence to the clipboard",
                TOOLBAR_BUTTON_BG,
                ToolbarCommand::CopyPrompt,
            ),
        );
    } else {
        buttons.push(
            ToolbarButton {
                label: "Copy as LLM prompt",
                tooltip:
                    "One or more source files are unavailable \u{2014} can't build a complete prompt",
                bg: TOOLBAR_BUTTON_BG,
                fg: ROW_TEXT_DIM,
                enabled: false,
                command: ToolbarCommand::CopyPrompt,
            },
        );
    }
    buttons.push(
        button(
            "Collapse all",
            "Collapse every occurrence in this group",
            TOOLBAR_BUTTON_BG,
            ToolbarCommand::CollapseAll,
        ),
    );
    buttons.push(
        button(
            "Expand all",
            "Expand every occurrence in this group",
            TOOLBAR_BUTTON_BG,
            ToolbarCommand::ExpandAll,
        ),
    );
    buttons.push(
        button("\u{00D7}", "Close detail pane", TOOLBAR_BUTTON_BG, ToolbarCommand::Close),
    );
    GroupToolbar { info, buttons }
}

/// The toolbar over a dismissed group, which can only be restored or closed.
#[derive(Debug)]
pub struct DismissedToolbar {
    pub label: String,
    /// The group to restore.
    pub hash: u64,
}

/// The toolbar over the dismissed group that is selected.
pub fn dismissed_toolbar(state: &AppState) -> (r: DismissedToolbar)
    ensures
        ({
            let selected = match state.selected_group {
                Some(id) => dismissed_from(state.dismissed@, id, 0),
                None => None,
            };
            match selected {
                Some(d) => r.hash == d.hash && r.label@ == "Dismissed group (hash "@ + leading(
                    d.hash_hex,
                    12,
                ) + "\u{2026})"@,
                None => r.hash == 0 && r.label@ == "Dismissed group"@,
            }
        }),
{
    match state.selected_dismissed() {
        Some(d) => {
            let mut label: String = "Dismissed group (hash ".to_owned();
            label.append(crate::app_state::first_chars(d.hash_hex.as_str(), 12));
            label.append("\u{2026})");
            DismissedToolbar { label, hash: d.hash }
        },
        None => DismissedToolbar { label: "Dismissed group".to_owned(), hash: 0 },
    }
}

// ---------------------------------------------------------------------------
// The head of an occurrence
// ---------------------------------------------------------------------------
/// The number that the parts of an occurrence are told apart by.
pub open spec fn occurrence_key(group_id: i64, occ_idx: usize) -> u64 {
    ((group_id as u64) << 32u64) | (occ_idx as u64)
}

/// The head of an occurrence.
#[derive(Debug)]
pub struct HeaderWidget {
    /// The number that its parts are told apart by.
    pub key: u64,
    /// The name of the group of parts that appear when the pointer is over it.
    pub hover_key: String,
    pub checkbox_bg: u32,
    pub check_mark: &'static str,
    /// Who last changed its first line.
    pub blame: Option<String>,
    /// What the last change says of itself, if it says anything.
    pub blame_tooltip: Option<String>,
}

/// The head of an occurrence.
pub fn occurrence_header(
    group_id: i64,
    occ_idx: usize,
    checked: bool,
    blame_overlay: Option<&str>,
    blame_tooltip: Option<&str>,
) -> (r: HeaderWidget)
    ensures
        r.key == occurrence_key(group_id, occ_idx),
        r.hover_key@ == "occ-hdr-"@ + dec_int(group_id as int) + "-"@ + dec(occ_idx as nat),
        r.checkbox_bg == if checked {
            ACCENT
        } else {
            CHECKBOX_UNCHECKED_BG
        },
        r.check_mark@ == if checked {
            "\u{2713}"@
        } else {
            " "@
        },
        match (blame_overlay, r.blame) {
            (Some(text), Some(shown)) => shown@ == text@,
            (None, None) => true,
            _ => false,
        },
        opt_chars(r.blame_tooltip) == match (blame_overlay, blame_tooltip) {
            (Some(_), Some(tip)) if tip@.len() > 0 => Some(tip@),
            _ => None,
        },
{
    let key: u64 = ((group_id as u64) << 32u64) | (occ_idx as u64);
    let mut hover_key: String = "occ-hdr-".to_owned();
    push_dec_int(&mut hover_key, group_id);
    hover_key.append("-");
    push_dec(&mut hover_key, occ_idx as u64);
    let blame: Option<String> = match blame_overlay {
        Some(text) => Some(text.to_owned()),
        None => None,
    };
    let mut tip: Option<String> = None;
    if blame_overlay.is_some() {
        if let Some(text) = blame_tooltip {
            if !text.is_empty() {
                tip = Some(text.to_owned());
            }
        }
    }
    HeaderWidget {
        key,
        hover_key,
        checkbox_bg: if checked {
            ACCENT
        } else {
            CHECKBOX_UNCHECKED_BG
        },
        check_mark: if checked {
            "\u{2713}"
        } else {
            " "
        },
        blame,
        blame_tooltip: tip,
    }
}

/// The parts of two occurrences are told apart, as long as the numbers of
/// groups and of occurrences have at most 32 bits.
pub proof fn law_occurrence_keys_differ(g: i64, i: usize, h: i64, j: usize)
    requires
        0 <= g < 0x1_0000_0000,
        0 <= h < 0x1_0000_0000,
        i < 0x1_0000_0000,
        j < 0x1_0000_0000,
        occurrence_key(g, i) == occurrence_key(h, j),
    ensures
        g == h,
        i == j,
{
    let a = g as u64;
    let b = h as u64;
    let x = i as u64;
    let y = j as u64;
    assert(a == b && x == y) by (bit_vector)
        requires
            a < 0x1_0000_0000,
            b < 0x1_0000_0000,
            x < 0x1_0000_0000,
            y < 0x1_0000_0000,
            (a << 32u64) | x == (b << 32u64) | y,
    ;
}

// ---------------------------------------------------------------------------
// Dialogs
// ---------------------------------------------------------------------------
/// How files are opened.
#[derive(Debug)]
pub struct EditorConfig {
    pub preset: String,
    /// The terminal that goes with the preset.
    pub default_terminal: String,
    pub terminal: Option<String>,
    pub command: Option<String>,
    pub terminal_command: Option<String>,
}

/// A line of a dialog: what it is, and what it is set to.
#[derive(Debug)]
pub struct DialogRow {
    pub label: &'static str,
    pub value: String,
}

/// A value, or what stands for it where there is none.
pub open spec fn or_else(value: Option<String>, other: Seq<char>) -> Seq<char> {
    match value {
        Some(v) => v@,
        None => other,
    }
}

/// A value, or what stands for it where there is none.
fn value_or(value: &Option<String>, other: &str) -> (r: String)
    ensures
        r@ == or_else(*value, other@),
{
    match value {
        Some(v) => v.clone(),
        None => other.to_owned(),
    }
}

/// The lines of the preferences.
pub open spec fn preference_rows(cfg: EditorConfig, config_path: Seq<char>) -> Seq<
    (Seq<char>, Seq<char>),
> {
    seq![
        ("Preset"@, cfg.preset@),
        ("Terminal"@, or_else(cfg.terminal, cfg.default_terminal@)),
        ("Command"@, or_else(cfg.command, "(preset default)"@)),
        ("Terminal command"@, or_else(cfg.terminal_command, "(unset)"@)),
        ("Config file"@, config_path),
    ]
}

/// The lines of the preferences.
pub fn preferences_dialog(cfg: &EditorConfig, config_path: &str) -> (r: Vec<DialogRow>)
    ensures
        r@.len() == preference_rows(*cfg, config_path@).len(),
        forall|i: int|
            0 <= i < r@.len() ==> ((#[trigger] r@[i]).label@, r@[i].value@) == preference_rows(
                *cfg,
                config_path@,
            )[i],
{
    let mut rows: Vec<DialogRow> = Vec::new();
    rows.push(DialogRow { label: "Preset", value: cfg.preset.clone() });
    rows.push(
        DialogRow {
            label: "Terminal",
            value: value_or(&cfg.terminal, cfg.default_terminal.as_str()),
        },
    );
    rows.push(DialogRow { label: "Command", value: value_or(&cfg.command, "(preset default)") });
    rows.push(
        DialogRow { label: "Terminal command", value: value_or(&cfg.terminal_command, "(unset)") },
    );
    rows.push(DialogRow { label: "Config file", value: config_path.to_owned() });
    rows
}

/// The dialog of the issues of a scan.
#[derive(Debug)]
pub struct IssuesDialog {
    pub headline: String,
    pub rows: Vec<DialogRow>,
}

/// The dialog of the issues of a scan: how many there are, and for each its
/// kind, its file and its message.
pub fn issues_dialog(issues: &Vec<FileIssue>) -> (r: IssuesDialog)
    ensures
        r.headline@ == issues_text(issues@.len()),
        r.rows@.len() == issues@.len(),
        forall|i: int|
            0 <= i < r.rows@.len() ==> (#[trigger] r.rows@[i]).label@ == kind_text(issues@[i].kind)
                && r.rows@[i].value@ == issues@[i].path@ + ": "@ + issues@[i].message@,
{
    let mut rows: Vec<DialogRow> = Vec::new();
    let mut i: usize = 0;
    while i < issues.len()
        invariant
            i <= issues.len(),
            rows@.len() == i,
            forall|k: int|
                0 <= k < i ==> (#[trigger] rows@[k]).label@ == kind_text(issues@[k].kind)
                    && rows@[k].value@ == issues@[k].path@ + ": "@ + issues@[k].message@,
        decreases issues.len() - i,
    {
        let issue: &FileIssue = &issues[i];
        let mut value: String = issue.path.clone();
        value.append(": ");
        value.append(issue.message.as_str());
        rows.push(DialogRow { label: kind_camel_label(issue.kind), value });
        i += 1;
    }
    IssuesDialog { headline: issues_headline(issues.len()), rows }
}

/// The line of the dialog for a broken configuration that names the file.
pub fn startup_modal_file(path: &str) -> (r: String)
    ensures
        r@ == "File: "@ + path@,
{
    let mut out: String = "File: ".to_owned();
    out.append(path);
    out
}

// ---------------------------------------------------------------------------
// Toasts
// ---------------------------------------------------------------------------
/// How a toast is drawn.
#[derive(Debug)]
pub struct ToastCard {
    pub bg: u32,
    pub border: u32,
    pub icon: &'static str,
    /// The name of its button.
    pub action_id: String,
    /// The name of the button that closes it.
    pub close_id: String,
}

/// How a toast is drawn.
pub fn toast_card(toast: &Toast) -> (r: ToastCard)
    ensures
        r.bg == match toast.kind {
            ToastKind::Error => TOAST_ERROR_BG,
            ToastKind::Warning => TOAST_WARNING_BG,
            ToastKind::Info => TOAST_INFO_BG,
        },
        r.border == match toast.kind {
            ToastKind::Error => TOAST_ERROR_BORDER,
            ToastKind::Warning => TOAST_WARNING_BORDER,
            ToastKind::Info => TOAST_INFO_BORDER,
        },
        r.icon@ == match toast.kind {
            ToastKind::Info => "\u{2139}"@,
            _ => "\u{26A0}"@,
        },
        r.action_id@ == "toast-action-"@ + dec(toast.id as nat),
        r.close_id@ == "toast-close-"@ + dec(toast.id as nat),
{
    let mut action_id: String = "toast-action-".to_owned();
    push_dec(&mut action_id, toast.id);
    let mut close_id: String = "toast-close-".to_owned();
    push_dec(&mut close_id, toast.id);
    match toast.kind {
        ToastKind::Error => ToastCard {
            bg: TOAST_ERROR_BG,
            border: TOAST_ERROR_BORDER,
            icon: "\u{26A0}",
            action_id,
            close_id,
        },
        ToastKind::Warning => ToastCard {
            bg: TOAST_WARNING_BG,
            border: TOAST_WARNING_BORDER,
            icon: "\u{26A0}",
            action_id,
            close_id,
        },
        ToastKind::Info => ToastCard {
            bg: TOAST_INFO_BG,
            border: TOAST_INFO_BORDER,
            icon: "\u{2139}",
            action_id,
            close_id,
        },
    }
}

// ---------------------------------------------------------------------------
// The sidebar
// ---------------------------------------------------------------------------
/// How the search field is drawn.
#[derive(Debug)]
pub struct SearchBox {
    pub text: String,
    pub text_color: u32,
    pub border_color: u32,
}

/// `r` is how the search field is drawn. An empty query shows what the field is
/// for.
pub open spec fn is_search_box(state: AppState, is_focused: bool, r: SearchBox) -> bool {
    &&& r.text@ == if state.search_query@.len() == 0 {
        "Search\u{2026}"@
    } else {
        state.search_query@
    }
    &&& r.text_color == if state.search_query@.len() == 0 {
        ROW_TEXT_DIM
    } else {
        ROW_TEXT
    }
    &&& r.border_color == if is_focused {
        ACCENT
    } else {
        ACCENT_DIM
    }
}

/// How the search field is drawn.
pub fn search_box(state: &AppState, is_focused: bool) -> (r: SearchBox)
    ensures
        is_search_box(*state, is_focused, r),
{
    let border_color: u32 = if is_focused {
        ACCENT
    } else {
        ACCENT_DIM
    };
    if state.search_query.as_str().is_empty() {
        SearchBox { text: "Search\u{2026}".to_owned(), text_color: ROW_TEXT_DIM, border_color }
    } else {
        SearchBox { text: state.search_query.clone(), text_color: ROW_TEXT, border_color }
    }
}

/// What a key does in the search field.
#[derive(Debug, Clone, Copy, PartialEq, Eq, Structural)]
pub enum SearchKey {
    /// The field is emptied and left.
    Leave,
    /// The last character goes.
    Backspace,
    /// A character is added.
    Type(char),
    /// The key is left to others.
    Ignore,
}

/// A key that was pressed.
#[derive(Debug)]
pub struct Keystroke {
    /// The name of the key.
    pub key: String,
    /// The text that it types, if that is known.
    pub key_char: Option<String>,
    /// Whether a modifier other than shift is held.
    pub command_mod: bool,
}

/// The control characters.
pub open spec fn is_control(c: char) -> bool {
    let u = c as u32;
    u <= 0x1f || 0x7f <= u <= 0x9f
}

/// What a key types: its text, or else its name.
pub open spec fn typed_text(k: Keystroke) -> Seq<char> {
    match k.key_char {
        Some(t) => t@,
        None => k.key@,
    }
}

/// What a key does in the search field. Only a single character that is no
/// control character is typed.
pub open spec fn search_key_of(k: Keystroke) -> SearchKey {
    let text = typed_text(k);
    if k.key@ == "escape"@ {
        SearchKey::Leave
    } else if k.command_mod {
        SearchKey::Ignore
    } else if k.key@ == "backspace"@ || k.key@ == "delete"@ {
        SearchKey::Backspace
    } else if text.len() == 1 && !is_control(text[0]) {
        SearchKey::Type(text[0])
    } else {
        SearchKey::Ignore
    }
}

/// What a key does in the search field.
pub fn search_key(k: &Keystroke) -> (r: SearchKey)
    ensures
        r == search_key_of(*k),
{
    if same_text(k.key.as_str(), "escape") {
        return SearchKey::Leave;
    }
    if k.command_mod {
        return SearchKey::Ignore;
    }
    if same_text(k.key.as_str(), "backspace") || same_text(k.key.as_str(), "delete") {
        return SearchKey::Backspace;
    }
    let text: &str = match &k.key_char {
        Some(t) => t.as_str(),
        None => k.key.as_str(),
    };
    let n: usize = text.unicode_len();
    if n != 1 {
        return SearchKey::Ignore;
    }
    let c: char = text.get_char(0);
    let u: u32 = c as u32;
    if u <= 0x1f || (0x7f <= u && u <= 0x9f) {
        SearchKey::Ignore
    } else {
        SearchKey::Type(c)
    }
}

/// A title with a count.
pub open spec fn caption(title: Seq<char>, count: nat) -> Seq<char> {
    title + " ("@ + dec(count) + ")"@
}

/// The caption of a list of the sidebar.
pub fn section_header(title: &str, count: usize) -> (r: String)
    ensures
        r@ == caption(title@, count as nat),
{
    let mut out: String = title.to_owned();
    out.append(" (");
    push_dec(&mut out, count as u64);
    out.append(")");
    out
}

/// The caption of the list of dismissed groups.
pub open spec fn dismissed_caption(state: AppState) -> Seq<char> {
    caption(
        (if state.dismissed_expanded {
            "\u{25BC}"@
        } else {
            "\u{25B6}"@
        }) + " Dismissed"@,
        state.dismissed@.len(),
    )
}

/// The caption of the list of dismissed groups.
pub fn dismissed_header(state: &AppState) -> (r: String)
    ensures
        r@ == dismissed_caption(*state),
{
    let mut title: String = if state.dismissed_expanded {
        "\u{25BC}".to_owned()
    } else {
        "\u{25B6}".to_owned()
    };
    title.append(" Dismissed");
    section_header(title.as_str(), state.dismissed.len())
}

/// The name of the open folder, as the sidebar shows it.
pub fn folder_title(state: &AppState) -> (r: String)
    ensures
        r@ == title_of(*state),
{
    match &state.current_folder {
        Some(path) => match file_name(path.as_str()) {
            Some(name) => name,
            None => path.clone(),
        },
        None => String::new(),
    }
}

/// The row of a group in the sidebar.
#[derive(Debug)]
pub struct GroupRow {
    /// The group that a click selects.
    pub id: i64,
    pub label: String,
    /// Whether it is selected.
    pub selected: bool,
}

/// `rows` are the rows of groups in the sidebar.
pub open spec fn are_group_rows(
    groups: Seq<GroupModel>,
    selected: Option<i64>,
    rows: Seq<GroupRow>,
) -> bool {
    &&& rows.len() == groups.len()
    &&& forall|i: int|
        0 <= i < rows.len() ==> (#[trigger] rows[i]).id == groups[i].id && rows[i].label@
            == groups[i].label && rows[i].selected == (selected == Some(groups[i].id))
}

/// The rows of groups in the sidebar.
pub fn group_rows(groups: &Vec<GroupView>, selected: Option<i64>) -> (r: Vec<GroupRow>)
    ensures
        are_group_rows(group_models(groups@), selected, r@),
{
    let ghost models = group_models(groups@);
    let mut out: Vec<GroupRow> = Vec::new();
    let mut i: usize = 0;
    while i < groups.len()
        invariant
            i <= groups.len(),
            models == group_models(groups@),
            out@.len() == i,
            forall|k: int|
                0 <= k < i ==> (#[trigger] out@[k]).id == models[k].id && out@[k].label@
                    == models[k].label && out@[k].selected == (selected == Some(models[k].id)),
        decreases groups.len() - i,
    {
        assert(models[i as int] == groups@[i as int]@);
        let id: i64 = groups[i].id;
        let is_selected: bool = match selected {
            Some(s) => s == id,
            None => false,
        };
        out.push(GroupRow { id, label: groups[i].label.clone(), selected: is_selected });
        i += 1;
    }
    out
}

/// The sidebar, from top to bottom.
#[derive(Debug)]
pub struct Sidebar {
    /// The name of the open folder.
    pub title: String,
    pub search: SearchBox,
    /// What there is of the groups.
    pub summary: String,
    pub tier_b_header: String,
    pub tier_b: Vec<GroupRow>,
    pub tier_a_header: String,
    pub tier_a: Vec<GroupRow>,
    pub dismissed_header: String,
    pub dismissed: Vec<DismissedRow>,
}

/// The name of the open folder, as the sidebar shows it.
pub open spec fn title_of(state: AppState) -> Seq<char> {
    match state.current_folder {
        Some(path) => match file_name_of(path@) {
            Some(name) => name,
            None => path@,
        },
        None => Seq::empty(),
    }
}

/// The sidebar. `search_focused` says whether the search field has the focus.
pub fn sidebar(state: &AppState, search_focused: bool) -> (r: Sidebar)
    ensures
        r.title@ == title_of(*state),
        is_search_box(*state, search_focused, r.search),
        r.summary@ == summary_text(summary_of(*state)),
        r.tier_b_header@ == caption("Duplicated functions / classes"@, partition_of(*state).0.len()),
        are_group_rows(partition_of(*state).0, state.selected_group, r.tier_b@),
        r.tier_a_header@ == caption("Duplicated blocks"@, partition_of(*state).1.len()),
        are_group_rows(partition_of(*state).1, state.selected_group, r.tier_a@),
        r.dismissed_header@ == dismissed_caption(*state),
        r.dismissed@.len() == if state.dismissed_expanded {
            state.dismissed@.len()
        } else {
            0
        },
        forall|i: int|
            0 <= i < r.dismissed@.len() ==> is_row_of(
                state.dismissed@[i],
                state.dismissed@[i].last_group_id is Some && state.selected_group
                    == state.dismissed@[i].last_group_id,
                #[trigger] r.dismissed@[i],
            ),
{
    let (tier_b, tier_a): (Vec<GroupView>, Vec<GroupView>) = sidebar_tier_partition(state);
    assert(group_models(tier_b@).len() == tier_b@.len());
    assert(group_models(tier_a@).len() == tier_a@.len());
    Sidebar {
        title: folder_title(state),
        search: search_box(state, search_focused),
        summary: state.summary().format(),
        tier_b_header: section_header("Duplicated functions / classes", tier_b.len()),
        tier_b: group_rows(&tier_b, state.selected_group),
        tier_a_header: section_header("Duplicated blocks", tier_a.len()),
        tier_a: group_rows(&tier_a, state.selected_group),
        dismissed_header: dismissed_header(state),
        dismissed: dismissed_rows(state),
    }
}

/// A line of the list of sort keys.
#[derive(Debug)]
pub struct SortRow {
    pub id: String,
    pub text: String,
    pub color: u32,
}

/// A line of the list of sort keys. The current one stands out.
pub fn sort_row(label: &str, is_current: bool) -> (r: SortRow)
    ensures
        r.id@ == "sort-popup-"@ + label@,
        r.text@ == (if is_current {
            "\u{2022} "@
        } else {
            "  "@
        }) + label@,
        r.color == if is_current {
            ACCENT
        } else {
            ROW_TEXT
        },
{
    let mut id: String = "sort-popup-".to_owned();
    id.append(label);
    let mut text: String = if is_current {
        "\u{2022} ".to_owned()
    } else {
        "  ".to_owned()
    };
    text.append(label);
    SortRow {
        id,
        text,
        color: if is_current {
            ACCENT
        } else {
            ROW_TEXT
        },
    }
}

/// The button that starts and stops scans.
#[derive(Debug, Clone, Copy)]
pub struct ScanButton {
    pub label: &'static str,
    pub bg: u32,
    /// What a click sets off. Without it the button is dimmed.
    pub action: Option<MenuAction>,
}

/// What a click on the button for scans sets off.
pub open spec fn button_action(scan: ScanState, has_folder: bool) -> Option<MenuAction> {
    match scan {
        ScanState::Running { .. } => Some(MenuAction::StopScan),
        ScanState::Cancelling { .. } => None,
        _ => if has_folder {
            Some(MenuAction::StartScan)
        } else {
            None
        },
    }
}

/// The button offers to begin a scan exactly where that would begin one, and to
/// stop one exactly where that would stop one.
pub proof fn law_scan_button(scan: ScanState, has_folder: bool, now: u64)
    ensures
        button_action(scan, has_folder) == Some(MenuAction::StartScan) <==> has_folder && scan
            !is Running && scan_next(scan, ScanMove::Start(now)) is Running,
        button_action(scan, has_folder) == Some(MenuAction::StopScan) <==> scan is Running
            && scan_next(scan, ScanMove::Stop(now)) is Cancelling,
        button_action(scan, has_folder) is None <==> scan is Cancelling || (!has_folder
            && scan !is Running),
{
}

/// The button that starts and stops scans.
pub fn scan_button(state: &AppState) -> (r: ScanButton)
    ensures
        r.action == button_action(state.scan_state, state.current_folder is Some),
        r.label@ == match state.scan_state {
            ScanState::Running { .. } => "Cancel"@,
            ScanState::Cancelling { .. } => "Cancelling\u{2026}"@,
            _ => "Scan"@,
        },
        r.action == match state.scan_state {
            ScanState::Running { .. } => Some(MenuAction::StopScan),
            ScanState::Cancelling { .. } => None,
            _ => if state.current_folder is Some {
                Some(MenuAction::StartScan)
            } else {
                None
            },
        },
        r.bg == if r.action is Some {
            ACCENT
        } else {
            ACCENT_DIM
        },
{
    match state.scan_state {
        ScanState::Running { .. } => ScanButton {
            label: "Cancel",
            bg: ACCENT,
            action: Some(MenuAction::StopScan),
        },
        ScanState::Cancelling { .. } => ScanButton {
            label: "Cancelling\u{2026}",
            bg: ACCENT_DIM,
            action: None,
        },
        _ => if state.current_folder.is_some() {
            ScanButton { label: "Scan", bg: ACCENT, action: Some(MenuAction::StartScan) }
        } else {
            ScanButton { label: "Scan", bg: ACCENT_DIM, action: None }
        },
    }
}

/// How long something has gone on.
pub open spec fn time_since(started_at: u64, now: u64) -> u64 {
    if now >= started_at {
        (now - started_at) as u64
    } else {
        0
    }
}

/// What the strip at the top says of a scan that found `files` files and
/// `matches` matches so far.
pub open spec fn overlay_text(scan: ScanState, files: nat, matches: nat, now: u64) -> Option<
    Seq<char>,
> {
    match scan {
        ScanState::Idle => None,
        ScanState::Running { started_at } => Some(
            "Scanning\u{2026} "@ + dec(files) + " files \u{00B7} "@ + dec(matches)
                + " matches \u{00B7} "@ + elapsed_text(time_since(started_at, now)),
        ),
        ScanState::Cancelling { started_at } => Some(
            "Cancelling\u{2026} ("@ + elapsed_text(time_since(started_at, now)) + ")"@,
        ),
        ScanState::Completed { group_count, file_count, duration } => Some(
            completion_text(group_count, file_count, duration),
        ),
    }
}

/// What the strip at the top says of a scan.
pub fn scan_overlay(scan: ScanState, files: u64, matches: u64, now: u64) -> (r: Option<String>)
    ensures
        opt_chars(r) == overlay_text(scan, files as nat, matches as nat, now),
{
    match scan {
        ScanState::Idle => None,
        ScanState::Running { started_at } => {
            let mut out: String = "Scanning\u{2026} ".to_owned();
            push_dec(&mut out, files);
            out.append(" files \u{00B7} ");
            push_dec(&mut out, matches);
            out.append(" matches \u{00B7} ");
            out.append(format_elapsed(since(started_at, now)).as_str());
            Some(out)
        },
        ScanState::Cancelling { started_at } => {
            let mut out: String = "Cancelling\u{2026} (".to_owned();
            out.append(format_elapsed(since(started_at, now)).as_str());
            out.append(")");
            Some(out)
        },
        ScanState::Completed { group_count, file_count, duration } => Some(
            format_completion_banner(group_count, file_count, duration),
        ),
    }
}

/// How long something has gone on.
fn since(started_at: u64, now: u64) -> (r: u64)
    ensures
        r == time_since(started_at, now),
{
    if now >= started_at {
        now - started_at
    } else {
        0
    }
}

// ---------------------------------------------------------------------------
// The window as a whole
// ---------------------------------------------------------------------------
/// What fills the window.
#[derive(Debug)]
pub enum Body {
    NoFolder,
    /// A headline, a line under it, and the open folder with a scan button.
    Panel { headline: &'static str, detail: Option<String>, footer: Option<String> },
    /// The groups, beside the sidebar unless that is hidden.
    Loaded { sidebar: bool },
}

/// What a [`Body`] stands for.
#[verifier::ext_equal]
pub enum BodyModel {
    NoFolder,
    Panel { headline: Seq<char>, detail: Option<Seq<char>>, footer: Option<Seq<char>> },
    Loaded { sidebar: bool },
}

impl View for Body {
    type V = BodyModel;

    open spec fn view(&self) -> BodyModel {
        match self {
            Body::NoFolder => BodyModel::NoFolder,
            Body::Panel { headline, detail, footer } => BodyModel::Panel {
                headline: headline@,
                detail: opt_chars(*detail),
                footer: opt_chars(*footer),
            },
            Body::Loaded { sidebar } => BodyModel::Loaded { sidebar: *sidebar },
        }
    }
}

/// The line that names the open folder.
pub open spec fn footer_text(state: AppState) -> Option<Seq<char>> {
    match state.current_folder {
        Some(path) => Some("Folder: "@ + path@),
        None => None,
    }
}

/// What fills the window.
pub open spec fn body_of(state: AppState) -> BodyModel {
    match state.status {
        AppStatus::NoFolderOpen => BodyModel::NoFolder,
        AppStatus::Empty => BodyModel::Panel {
            headline: "No source files found"@,
            detail: Some("Check your .dedupignore and filters."@),
            footer: footer_text(state),
        },
        AppStatus::NoDuplicates => BodyModel::Panel {
            headline: "No duplicates found"@,
            detail: None,
            footer: footer_text(state),
        },
        AppStatus::NewerCache { found, supported } => BodyModel::Panel {
            headline: "Cache is from a newer Dedup"@,
            detail: Some(
                "Cache schema v"@ + dec(found as nat) + " > supported v"@ + dec(supported as nat)
                    + ". Rescan with this build to continue."@,
            ),
            footer: None,
        },
        AppStatus::Error(message) => BodyModel::Panel {
            headline: "Could not open cache"@,
            detail: Some(message@),
            footer: None,
        },
        AppStatus::Loaded => BodyModel::Loaded { sidebar: !state.sidebar_hidden },
    }
}

/// The line that names the open folder.
fn folder_footer(state: &AppState) -> (r: Option<String>)
    ensures
        opt_chars(r) == footer_text(*state),
{
    match &state.current_folder {
        Some(path) => {
            let mut out: String = "Folder: ".to_owned();
            out.append(path.as_str());
            Some(out)
        },
        None => None,
    }
}

/// What fills the window.
pub fn window_body(state: &AppState) -> (r: Body)
    ensures
        r@ == body_of(*state),
{
    match &state.status {
        AppStatus::NoFolderOpen => Body::NoFolder,
        AppStatus::Empty => Body::Panel {
            headline: "No source files found",
            detail: Some("Check your .dedupignore and filters.".to_owned()),
            footer: folder_footer(state),
        },
        AppStatus::NoDuplicates => Body::Panel {
            headline: "No duplicates found",
            detail: None,
            footer: folder_footer(state),
        },
        AppStatus::NewerCache { found, supported } => {
            let mut text: String = "Cache schema v".to_owned();
            push_dec(&mut text, *found as u64);
            text.append(" > supported v");
            push_dec(&mut text, *supported as u64);
            text.append(". Rescan with this build to continue.");
            Body::Panel { headline: "Cache is from a newer Dedup", detail: Some(text), footer: None }
        },
        AppStatus::Error(message) => Body::Panel {
            headline: "Could not open cache",
            detail: Some(message.clone()),
            footer: None,
        },
        AppStatus::Loaded => Body::Loaded { sidebar: !state.sidebar_hidden },
    }
}

/// What lies over the window.
#[derive(Debug, Clone, Copy, PartialEq, Eq, Structural)]
pub struct Overlays {
    pub stale_recent: bool,
    pub editor_banner: bool,
    pub scan_strip: bool,
    pub sort_popup: bool,
    pub preferences: bool,
    pub issues: bool,
    pub startup_error: bool,
}

/// What lies over the window.
pub fn window_overlays(state: &AppState) -> (r: Overlays)
    ensures
        r == (Overlays {
            stale_recent: state.recent_banner is Some,
            editor_banner: state.editor_banner is Some,
            scan_strip: state.scan_state != ScanState::Idle,
            sort_popup: state.sort_popup_open,
            preferences: state.preferences_open,
            issues: state.scan_issues_open,
            startup_error: state.startup_error is Some,
        }),
{
    Overlays {
        stale_recent: state.recent_banner.is_some(),
        editor_banner: state.editor_banner.is_some(),
        scan_strip: state.scan_state != ScanState::Idle,
        sort_popup: state.sort_popup_open,
        preferences: state.preferences_open,
        issues: state.scan_issues_open,
        startup_error: state.startup_error.is_some(),
    }
}

/// What the detail pane shows.
#[derive(Debug, Clone, Copy, PartialEq, Eq, Structural)]
pub enum DetailPane {
    /// A hint to select a group.
    Hint,
    /// A group, with the full toolbar.
    Group(i64),
    /// A dismissed group, with the toolbar that restores it.
    Dismissed(i64),
}

/// What the detail pane shows.
pub open spec fn pane_of(state: AppState) -> DetailPane {
    if occurrences_shown(state).len() == 0 {
        DetailPane::Hint
    } else {
        let id = state.selected_group->0;
        if dismissed_from(state.dismissed@, id, 0) is Some {
            DetailPane::Dismissed(id)
        } else {
            DetailPane::Group(id)
        }
    }
}

/// What the detail pane shows.
pub fn detail_pane(state: &AppState) -> (r: DetailPane)
    ensures
        r == pane_of(*state),
{
    let shown: Vec<OccurrenceView> = state.selected_occurrences();
    assert(crate::app_state::occurrence_models(shown@).len() == shown@.len());
    if shown.len() == 0 {
        return DetailPane::Hint;
    }
    match state.selected_group {
        Some(id) => if state.selected_dismissed().is_some() {
            DetailPane::Dismissed(id)
        } else {
            DetailPane::Group(id)
        },
        None => DetailPane::Hint,
    }
}

/// What the window does on each action. On the others it does nothing but to note
/// them.
pub proof fn law_commands(action: MenuAction)
    ensures
        command_of(MenuAction::OpenFolder) == RootCommand::PickFolder,
        command_of(MenuAction::StartScan) == RootCommand::StartScan,
        command_of(MenuAction::StopScan) == RootCommand::RequestCancel,
        command_of(MenuAction::ToggleSidebar) == RootCommand::ToggleSidebar,
        command_of(MenuAction::FocusSidebar) == RootCommand::FocusSidebar,
        command_of(MenuAction::FocusDetail) == RootCommand::FocusDetail,
        command_of(MenuAction::FindInSidebar) == RootCommand::FindInSidebar,
        command_of(MenuAction::NextGroup) == RootCommand::NextGroup,
        command_of(MenuAction::PrevGroup) == RootCommand::PrevGroup,
        command_of(MenuAction::ActivateGroup) == RootCommand::ActivateGroup,
        command_of(MenuAction::DismissCurrentGroup) == RootCommand::DismissCurrentGroup,
        command_of(MenuAction::OpenSelectedInEditor) == RootCommand::OpenSelectedInEditor,
        command_of(MenuAction::CollapseAll) == RootCommand::CollapseAll,
        command_of(MenuAction::ExpandAll) == RootCommand::ExpandAll,
        command_of(MenuAction::OpenRecent0) == RootCommand::OpenRecent(0),
        command_of(MenuAction::OpenRecent1) == RootCommand::OpenRecent(1),
        command_of(MenuAction::OpenRecent2) == RootCommand::OpenRecent(2),
        command_of(MenuAction::OpenRecent3) == RootCommand::OpenRecent(3),
        command_of(MenuAction::OpenRecent4) == RootCommand::OpenRecent(4),
        command_of(MenuAction::ClearRecents) == RootCommand::ClearRecents,
        command_of(MenuAction::RemoveStaleRecent) == RootCommand::RemoveStaleRecent,
        command_of(MenuAction::DismissRecentBanner) == RootCommand::DismissRecentBanner,
        command_of(MenuAction::DismissEditorBanner) == RootCommand::DismissEditorBanner,
        command_of(MenuAction::Preferences) == RootCommand::OpenPreferences,
        command_of(MenuAction::ClosePreferences) == RootCommand::ClosePreferences,
        command_of(MenuAction::OpenConfigInEditor) == RootCommand::OpenConfigInEditor,
        command_of(MenuAction::DismissTopToast) == RootCommand::DismissTopToast,
        command_of(MenuAction::ShowScanIssues) == RootCommand::OpenScanIssues,
        command_of(MenuAction::CloseScanIssues) == RootCommand::CloseScanIssues,
        command_of(MenuAction::CopyScanIssues) == RootCommand::CopyScanIssues,
        command_of(MenuAction::StartupFixConfig) == RootCommand::StartupFixConfig,
        command_of(MenuAction::StartupResetConfig) == RootCommand::StartupResetConfig,
        command_of(MenuAction::RescanCache) == RootCommand::RescanCurrentFolder,
        command_of(MenuAction::DeleteCacheAndRescan) == RootCommand::DeleteCacheAndRescan,
        command_of(MenuAction::Quit) == RootCommand::Quit,
        command_of(action) == RootCommand::LogOnly <==> (action is About || action is Hide
            || action is CloseWindow || action is ClearCache || action is Help
            || action is ReportIssue || action is NoRecent),
{
}

/// The colors of the window.
pub proof fn law_window_colors()
    ensures
        ROW_TEXT == 0xe0e0e4,
        ROW_TEXT_DIM == 0xa0a0a8,
        ACCENT == 0x3b82f6,
        ACCENT_DIM == 0x2a2a34,
        TOOLBAR_BUTTON_BG == 0x3b3b48,
        TOOLBAR_DANGER_BG == 0x5a2a2a,
        CHECKBOX_UNCHECKED_BG == 0x444452,
        TOAST_ERROR_BG == 0x4c1d1d,
        TOAST_ERROR_BORDER == 0xdc2626,
        TOAST_WARNING_BG == 0x422c0f,
        TOAST_WARNING_BORDER == 0xf59e0b,
        TOAST_INFO_BG == 0x1f2937,
        TOAST_INFO_BORDER == 0x4b5563,
{
}

/// The buttons over a group do, from left to right, what they are labelled with.
/// All can be clicked, but for the prompt where a source cannot be read; the one
/// that dismisses stands out.
pub proof fn law_toolbar(sources_ok: bool)
    ensures
        toolbar_buttons(sources_ok).len() == 7,
        toolbar_buttons(sources_ok).map_values(|b: ButtonModel| b.label) == seq![
            "Open in editor"@,
            "Dismiss group"@,
            "Copy paths"@,
            "Copy as LLM prompt"@,
            "Collapse all"@,
            "Expand all"@,
            "\u{00D7}"@,
        ],
        toolbar_buttons(sources_ok).map_values(|b: ButtonModel| b.command) == seq![
            ToolbarCommand::OpenInEditor,
            ToolbarCommand::DismissGroup,
            ToolbarCommand::CopyPaths,
            ToolbarCommand::CopyPrompt,
            ToolbarCommand::CollapseAll,
            ToolbarCommand::ExpandAll,
            ToolbarCommand::Close,
        ],
        toolbar_buttons(sources_ok).map_values(|b: ButtonModel| b.enabled) == seq![
            true,
            true,
            true,
            sources_ok,
            true,
            true,
            true,
        ],
        toolbar_buttons(sources_ok).map_values(|b: ButtonModel| b.tooltip) == seq![
            "Open checked paths in your editor"@,
            "Dismiss this group (hide from sidebar)"@,
            "Copy checked paths to clipboard"@,
            if sources_ok {
                "Copy a markdown prompt containing every occurrence to the clipboard"@
            } else {
                "One or more source files are unavailable \u{2014} can't build a complete prompt"@
            },
            "Collapse every occurrence in this group"@,
            "Expand every occurrence in this group"@,
            "Close detail pane"@,
        ],
        forall|i: int|
            0 <= i < 7 ==> {
                &&& (#[trigger] toolbar_buttons(sources_ok)[i]).bg == if i == 1 {
                    0x5a2a2a
                } else {
                    0x3b3b48u32
                }
                &&& toolbar_buttons(sources_ok)[i].fg == if toolbar_buttons(sources_ok)[i].enabled {
                    0xe0e0e4
                } else {
                    0xa0a0a8u32
                }
            },
{
    let all = toolbar_buttons(sources_ok);
    assert(all.map_values(|b: ButtonModel| b.label) =~= seq![
        "Open in editor"@,
        "Dismiss group"@,
        "Copy paths"@,
        "Copy as LLM prompt"@,
        "Collapse all"@,
        "Expand all"@,
        "\u{00D7}"@,
    ]);
}

/// A number comes before its noun, which has an `s` at its end unless there is
/// one of it.
pub proof fn law_counted(n: nat, noun: Seq<char>)
    ensures
        counted(1, noun) == dec(1) + noun,
        n != 1 ==> counted(n, noun) == dec(n) + noun + seq!['s'],
        counted(n, noun).take(dec(n).len() as int) == dec(n),
{
    reveal_strlit("s");
    assert("s"@ =~= seq!['s']);
    assert(counted(1, noun) =~= dec(1) + noun);
    assert(counted(n, noun).take(dec(n).len() as int) =~= dec(n));
}

/// The preferences say what is set, and what stands in for what is not: the
/// default terminal, and that the preset decides on the command.
pub proof fn law_preferences(cfg: EditorConfig, config_path: Seq<char>)
    ensures
        ({
            let rows = preference_rows(cfg, config_path);
            &&& rows.len() == 5
            &&& rows[0] == ("Preset"@, cfg.preset@)
            &&& rows[1] == ("Terminal"@, match cfg.terminal {
                Some(t) => t@,
                None => cfg.default_terminal@,
            })
            &&& rows[2] == ("Command"@, match cfg.command {
                Some(c) => c@,
                None => "(preset default)"@,
            })
            &&& rows[3] == ("Terminal command"@, match cfg.terminal_command {
                Some(c) => c@,
                None => "(unset)"@,
            })
            &&& rows[4] == ("Config file"@, config_path)
        }),
{
}

/// The search field shows the query, and what it is for where there is none; it
/// stands out while it has the focus.
pub proof fn law_search_field(state: AppState, is_focused: bool, r: SearchBox)
    requires
        is_search_box(state, is_focused, r),
    ensures
        state.search_query@.len() > 0 ==> r.text@ == state.search_query@ && r.text_color
            == 0xe0e0e4,
        state.search_query@.len() == 0 ==> r.text@ == "Search\u{2026}"@ && r.text_color
            == 0xa0a0a8,
        is_focused ==> r.border_color == 0x3b82f6,
        !is_focused ==> r.border_color == 0x2a2a34,
{
}

/// The control characters are those of the two blocks of 32 that begin at 0 and
/// at 128, and the one before the second of them.
pub proof fn law_control_characters(c: char)
    ensures
        is_control(c) <==> (c as u32) < 32 || 127 <= (c as u32) < 160,
{
}

/// The search field is left with escape. With the command key held it takes
/// nothing else.
pub proof fn law_search_is_left(k: Keystroke)
    ensures
        k.key@ == "escape"@ <==> search_key_of(k) is Leave,
        k.key@ != "escape"@ && k.command_mod ==> search_key_of(k) is Ignore,
{
}

/// Two keys delete the last character of the query.
pub proof fn law_search_deletes(k: Keystroke)
    requires
        !k.command_mod,
        k.key@ == "backspace"@ || k.key@ == "delete"@,
    ensures
        search_key_of(k) is Backspace,
{
    reveal_strlit("escape");
    reveal_strlit("backspace");
    reveal_strlit("delete");
    assert("escape"@.len() == 6);
    assert("backspace"@.len() == 9);
    assert("delete"@[0] == 'd');
    assert("escape"@[0] == 'e');
}

/// A key types its character, or its name where that is one character, unless
/// this is a control character.
pub proof fn law_search_types(k: Keystroke, c: char)
    requires
        !k.command_mod,
        k.key@ != "escape"@,
        k.key@ != "backspace"@,
        k.key@ != "delete"@,
    ensures
        k.key_char is Some && k.key_char->0@ == seq![c] && !((c as u32) < 32 || 127 <= (c as u32)
            < 160) ==> search_key_of(k) == SearchKey::Type(c),
        k.key_char is None && k.key@ == seq![c] && !((c as u32) < 32 || 127 <= (c as u32) < 160)
            ==> search_key_of(k) == SearchKey::Type(c),
        k.key_char is Some && k.key_char->0@.len() != 1 ==> search_key_of(k) is Ignore,
        k.key_char is None && k.key@.len() != 1 ==> search_key_of(k) is Ignore,
        k.key_char is Some && k.key_char->0@ == seq![c] && ((c as u32) < 32 || 127 <= (c as u32)
            < 160) ==> search_key_of(k) is Ignore,
{
}

/// A caption has the count behind the title, in round brackets.
pub proof fn law_captions(title: Seq<char>, count: nat)
    ensures
        caption(title, count) == title + seq![' ', '('] + dec(count) + seq![')'],
{
    reveal_strlit(" (");
    reveal_strlit(")");
    assert(" ("@ =~= seq![' ', '(']);
    assert(")"@ =~= seq![')']);
}

/// The list of dismissed groups says how many there are, with an arrow that
/// points down where they are shown and aside where they are not.
pub proof fn law_dismissed_caption(state: AppState)
    ensures
        state.dismissed_expanded ==> dismissed_caption(state) == "\u{25BC}"@ + " Dismissed"@
            + " ("@ + dec(state.dismissed@.len()) + ")"@,
        !state.dismissed_expanded ==> dismissed_caption(state) == "\u{25B6}"@ + " Dismissed"@
            + " ("@ + dec(state.dismissed@.len()) + ")"@,
{
}

/// Every group has a row of its own, in order, with its number and its label. A
/// row is marked exactly if its group is selected.
pub proof fn law_group_rows(
    groups: Seq<GroupModel>,
    selected: Option<i64>,
    rows: Seq<GroupRow>,
    i: int,
)
    requires
        are_group_rows(groups, selected, rows),
        0 <= i < groups.len(),
    ensures
        rows.len() == groups.len(),
        rows[i].id == groups[i].id,
        rows[i].label@ == groups[i].label,
        rows[i].selected <==> selected is Some && selected->0 == groups[i].id,
{
}

/// The sidebar is titled with the last name in the path of the folder, or with the
/// path where it has none.
pub proof fn law_title(state: AppState)
    ensures
        state.current_folder is None ==> title_of(state).len() == 0,
        state.current_folder is Some && file_name_of(state.current_folder->0@) is Some
            ==> title_of(state) == file_name_of(state.current_folder->0@)->0,
        state.current_folder is Some && file_name_of(state.current_folder->0@) is None
            ==> title_of(state) == state.current_folder->0@,
{
}

/// Something has gone on since it was started, and for no time before that.
pub proof fn law_time_since(started_at: u64, now: u64)
    ensures
        started_at <= now ==> started_at + time_since(started_at, now) == now,
        started_at > now ==> time_since(started_at, now) == 0,
{
}

/// While a scan runs the strip says what was found so far and for how long it
/// runs, while it is being stopped for how long it has run, and then what came out
/// of it. Without a scan there is no strip.
pub proof fn law_scan_strip(scan: ScanState, files: nat, matches: nat, now: u64)
    ensures
        overlay_text(scan, files, matches, now) is None <==> scan is Idle,
        scan is Running ==> overlay_text(scan, files, matches, now) == Some(
            "Scanning\u{2026} "@ + dec(files) + " files \u{00B7} "@ + dec(matches)
                + " matches \u{00B7} "@ + elapsed_text(
                time_since(scan->Running_started_at, now),
            ),
        ),
        scan is Cancelling ==> overlay_text(scan, files, matches, now) == Some(
            "Cancelling\u{2026} ("@ + elapsed_text(time_since(scan->Cancelling_started_at, now))
                + ")"@,
        ),
        scan is Completed ==> overlay_text(scan, files, matches, now) == Some(
            completion_text(scan->group_count, scan->file_count, scan->duration),
        ),
{
}

/// The line at the bottom names the folder that is open.
pub proof fn law_footer(state: AppState)
    ensures
        footer_text(state) is Some <==> state.current_folder is Some,
        state.current_folder is Some ==> footer_text(state) == Some(
            "Folder: "@ + state.current_folder->0@,
        ),
{
}

/// The window shows the groups where there are some, with the sidebar unless it is
/// hidden, and else says why there are none.
pub proof fn law_window_body(state: AppState)
    ensures
        state.status is NoFolderOpen <==> body_of(state) is NoFolder,
        state.status is Loaded <==> body_of(state) is Loaded,
        state.status is Loaded ==> body_of(state)->sidebar == !state.sidebar_hidden,
        state.status is Empty ==> body_of(state)->headline == "No source files found"@
            && body_of(state)->detail == Some("Check your .dedupignore and filters."@)
            && body_of(state)->footer == footer_text(state),
        state.status is NoDuplicates ==> body_of(state)->headline == "No duplicates found"@
            && body_of(state)->detail is None && body_of(state)->footer == footer_text(state),
        state.status is NewerCache ==> body_of(state)->headline == "Cache is from a newer Dedup"@
            && body_of(state)->detail == Some(
            "Cache schema v"@ + dec(state.status->found as nat) + " > supported v"@ + dec(
                state.status->supported as nat,
            ) + ". Rescan with this build to continue."@,
        ) && body_of(state)->footer is None,
        state.status is Error ==> body_of(state)->headline == "Could not open cache"@
            && body_of(state)->detail == Some(state.status->Error_0@)
            && body_of(state)->footer is None,
{
}

/// The detail pane shows the selected group, with the toolbar that restores it
/// exactly if it is one of the dismissed groups, and a hint where there is nothing
/// to show.
pub proof fn law_detail_pane(state: AppState)
    ensures
        pane_of(state) is Hint <==> occurrences_shown(state).len() == 0,
        occurrences_shown(state).len() > 0 && dismissed_from(
            state.dismissed@,
            state.selected_group->0,
            0,
        ) is Some ==> pane_of(state) == DetailPane::Dismissed(state.selected_group->0),
        occurrences_shown(state).len() > 0 && dismissed_from(
            state.dismissed@,
            state.selected_group->0,
            0,
        ) is None ==> pane_of(state) == DetailPane::Group(state.selected_group->0),
{
}

} // verus!
