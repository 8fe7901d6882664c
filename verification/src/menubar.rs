//! The menus of the application, and its keyboard shortcuts.
use crate::recent::{menu_text, opt_text, RecentProject, MAX_RECENTS};
use vstd::prelude::*;
use vstd::string::*;

verus! {

/// What a menu item, a shortcut or a button asks for.
#[derive(Debug, Clone, Copy, PartialEq, Eq, Structural)]
pub enum MenuAction {
    About,
    Preferences,
    Hide,
    Quit,
    OpenFolder,
    CloseWindow,
    StartScan,
    StopScan,
    ClearCache,
    ToggleSidebar,
    FocusSidebar,
    FocusDetail,
    FindInSidebar,
    NextGroup,
    PrevGroup,
    ActivateGroup,
    DismissCurrentGroup,
    OpenSelectedInEditor,
    CollapseAll,
    ExpandAll,
    Help,
    ReportIssue,
    OpenRecent0,
    OpenRecent1,
    OpenRecent2,
    OpenRecent3,
    OpenRecent4,
    ClearRecents,
    RemoveStaleRecent,
    DismissRecentBanner,
    DismissEditorBanner,
    OpenConfigInEditor,
    ClosePreferences,
    DismissTopToast,
    ShowScanIssues,
    CloseScanIssues,
    CopyScanIssues,
    StartupFixConfig,
    StartupResetConfig,
    RescanCache,
    DeleteCacheAndRescan,
    NoRecent,
}

/// How many projects the menu of recent projects offers at most.
pub const OPEN_RECENT_SLOTS: usize = MAX_RECENTS;

/// A line of a menu that opens no other menu.
#[derive(Debug)]
pub enum MenuEntry {
    Action { label: String, action: MenuAction, disabled: bool },
    Separator,
}

/// A line of a menu.
#[derive(Debug)]
pub enum MenuItem {
    Entry(MenuEntry),
    /// The menu of services, which the system fills.
    Services,
    Submenu { label: String, entries: Vec<MenuEntry> },
}

/// A menu.
#[derive(Debug)]
pub struct Menu {
    pub name: String,
    pub items: Vec<MenuItem>,
}

/// What a [`MenuEntry`] stands for.
#[verifier::ext_equal]
pub enum EntryModel {
    Action { label: Seq<char>, action: MenuAction, disabled: bool },
    Separator,
}

/// What a [`MenuItem`] stands for.
#[verifier::ext_equal]
pub enum ItemModel {
    Entry(EntryModel),
    Services,
    Submenu { label: Seq<char>, entries: Seq<EntryModel> },
}

/// What a [`Menu`] stands for.
#[verifier::ext_equal]
pub struct MenuModel {
    pub name: Seq<char>,
    pub items: Seq<ItemModel>,
}

impl View for MenuEntry {
    type V = EntryModel;

    open spec fn view(&self) -> EntryModel {
        match self {
            MenuEntry::Action { label, action, disabled } => EntryModel::Action {
                label: label@,
                action: *action,
                disabled: *disabled,
            },
            MenuEntry::Separator => EntryModel::Separator,
        }
    }
}

/// What a list of entries stands for.
pub open spec fn entry_models(entries: Seq<MenuEntry>) -> Seq<EntryModel> {
    Seq::new(entries.len(), |i: int| entries[i]@)
}

impl View for MenuItem {
    type V = ItemModel;

    open spec fn view(&self) -> ItemModel {
        match self {
            MenuItem::Entry(entry) => ItemModel::Entry(entry@),
            MenuItem::Services => ItemModel::Services,
            MenuItem::Submenu { label, entries } => ItemModel::Submenu {
                label: label@,
                entries: entry_models(entries@),
            },
        }
    }
}

/// What a list of items stands for.
pub open spec fn item_models(items: Seq<MenuItem>) -> Seq<ItemModel> {
    Seq::new(items.len(), |i: int| items[i]@)
}

impl View for Menu {
    type V = MenuModel;

    open spec fn view(&self) -> MenuModel {
        MenuModel { name: self.name@, items: item_models(self.items@) }
    }
}

/// What a list of menus stands for.
pub open spec fn menu_models(menus: Seq<Menu>) -> Seq<MenuModel> {
    Seq::new(menus.len(), |i: int| menus[i]@)
}

/// A line that can be chosen.
pub open spec fn enabled(label: Seq<char>, action: MenuAction) -> EntryModel {
    EntryModel::Action { label, action, disabled: false }
}

/// A line that can be chosen, in a menu at the top.
pub open spec fn item(label: Seq<char>, action: MenuAction) -> ItemModel {
    ItemModel::Entry(enabled(label, action))
}

/// A line between groups of lines.
pub open spec fn rule() -> ItemModel {
    ItemModel::Entry(EntryModel::Separator)
}

/// The action for the recent project at a place.
pub open spec fn recent_action(i: int) -> MenuAction {
    if i == 0 {
        MenuAction::OpenRecent0
    } else if i == 1 {
        MenuAction::OpenRecent1
    } else if i == 2 {
        MenuAction::OpenRecent2
    } else if i == 3 {
        MenuAction::OpenRecent3
    } else {
        MenuAction::OpenRecent4
    }
}

/// How many recent projects are offered.
pub open spec fn offered(recents: Seq<RecentProject>) -> int {
    if recents.len() > MAX_RECENTS {
        MAX_RECENTS as int
    } else {
        recents.len() as int
    }
}

/// The menu of recent projects: the projects and a line that clears them, or a
/// line that says that there are none.
pub open spec fn recent_entries(recents: Seq<RecentProject>, home: Option<Seq<char>>) -> Seq<
    EntryModel,
> {
    if recents.len() == 0 {
        seq![
            EntryModel::Action {
                label: "No Recent Projects"@,
                action: MenuAction::NoRecent,
                disabled: true,
            },
        ]
    } else {
        Seq::new(
            offered(recents) as nat,
            |i: int| enabled(menu_text(recents[i].path@, home), recent_action(i)),
        ).push(EntryModel::Separator).push(enabled("Clear Menu"@, MenuAction::ClearRecents))
    }
}

/// The menu `Dedup`.
pub open spec fn dedup_menu() -> MenuModel {
    MenuModel {
        name: "Dedup"@,
        items: seq![
            item("About Dedup"@, MenuAction::About),
            rule(),
            item("Preferences\u{2026}"@, MenuAction::Preferences),
            rule(),
            ItemModel::Services,
            rule(),
            item("Hide Dedup"@, MenuAction::Hide),
            rule(),
            item("Quit Dedup"@, MenuAction::Quit),
        ],
    }
}

/// The menu `File`.
pub open spec fn file_menu(recents: Seq<RecentProject>, home: Option<Seq<char>>) -> MenuModel {
    MenuModel {
        name: "File"@,
        items: seq![
            item("Open\u{2026}"@, MenuAction::OpenFolder),
            ItemModel::Submenu {
                label: "Open Recent"@,
                entries: recent_entries(recents, home),
            },
            rule(),
            item("Close Window"@, MenuAction::CloseWindow),
        ],
    }
}

/// The menu `Scan`.
pub open spec fn scan_menu() -> MenuModel {
    MenuModel {
        name: "Scan"@,
        items: seq![
            item("Start Scan"@, MenuAction::StartScan),
            item("Stop Scan"@, MenuAction::StopScan),
            rule(),
            item("Clear Cache\u{2026}"@, MenuAction::ClearCache),
        ],
    }
}

/// The menu `View`.
pub open spec fn view_menu() -> MenuModel {
    MenuModel {
        name: "View"@,
        items: seq![
            item("Toggle Sidebar"@, MenuAction::ToggleSidebar),
            item("Focus Sidebar"@, MenuAction::FocusSidebar),
            item("Focus Detail"@, MenuAction::FocusDetail),
            rule(),
            item("Find in Sidebar"@, MenuAction::FindInSidebar),
        ],
    }
}

/// The menu `Window`.
pub open spec fn window_menu() -> MenuModel {
    MenuModel {
        name: "Window"@,
        items: Seq::empty(),
    }
}

/// The menu `Help`.
pub open spec fn help_menu() -> MenuModel {
    MenuModel {
        name: "Help"@,
        items: seq![
            item("Dedup Help"@, MenuAction::Help),
            item("Report Issue\u{2026}"@, MenuAction::ReportIssue),
        ],
    }
}

/// The menus, from left to right.
pub open spec fn menu_tree(recents: Seq<RecentProject>, home: Option<Seq<char>>) -> Seq<MenuModel> {
    seq![
        dedup_menu(),
        file_menu(recents, home),
        scan_menu(),
        view_menu(),
        window_menu(),
        help_menu(),
    ]
}

/// A line that can be chosen.
fn action_entry(label: &str, action: MenuAction) -> (r: MenuEntry)
    ensures
        r@ == enabled(label@, action),
{
    MenuEntry::Action { label: label.to_owned(), action, disabled: false }
}

/// A line that can be chosen, in a menu at the top.
fn action_item(label: &str, action: MenuAction) -> (r: MenuItem)
    ensures
        r@ == item(label@, action),
{
    MenuItem::Entry(action_entry(label, action))
}

/// A line between groups of lines.
fn separator() -> (r: MenuItem)
    ensures
        r@ == rule(),
{
    MenuItem::Entry(MenuEntry::Separator)
}

/// The line for the recent project at a place.
pub fn menu_item_for_index(idx: usize, label: String) -> (r: MenuEntry)
    requires
        idx < MAX_RECENTS,
    ensures
        r@ == enabled(label@, recent_action(idx as int)),
{
    let action: MenuAction = if idx == 0 {
        MenuAction::OpenRecent0
    } else if idx == 1 {
        MenuAction::OpenRecent1
    } else if idx == 2 {
        MenuAction::OpenRecent2
    } else if idx == 3 {
        MenuAction::OpenRecent3
    } else {
        MenuAction::OpenRecent4
    };
    MenuEntry::Action { label, action, disabled: false }
}

/// The menu of recent projects.
pub fn build_open_recent_submenu(recents: &[RecentProject], home: Option<&str>) -> (r: MenuItem)
    ensures
        r@ == (ItemModel::Submenu {
            label: "Open Recent"@,
            entries: recent_entries(recents@, opt_text(home)),
        }),
{
    let mut entries: Vec<MenuEntry> = Vec::new();
    if recents.len() == 0 {
        entries.push(
            MenuEntry::Action {
                label: "No Recent Projects".to_owned(),
                action: MenuAction::NoRecent,
                disabled: true,
            },
        );
        assert(entry_models(entries@) =~= recent_entries(recents@, opt_text(home)));
        return MenuItem::Submenu { label: "Open Recent".to_owned(), entries };
    }
    let mut i: usize = 0;
    while i < recents.len() && i < MAX_RECENTS
        invariant
            i <= offered(recents@),
            entries@.len() == i,
            forall|k: int|
                0 <= k < i ==> (#[trigger] entries@[k])@ == enabled(
                    menu_text(recents@[k].path@, opt_text(home)),
                    recent_action(k),
                ),
        decreases MAX_RECENTS - i,
    {
        let label: String = recents[i].menu_label(home);
        entries.push(menu_item_for_index(i, label));
        i += 1;
    }
    entries.push(MenuEntry::Separator);
    entries.push(action_entry("Clear Menu", MenuAction::ClearRecents));
    assert(entry_models(entries@) =~= recent_entries(recents@, opt_text(home)));
    MenuItem::Submenu { label: "Open Recent".to_owned(), entries }
}

/// The menu `Dedup`.
fn build_dedup_menu() -> (r: Menu)
    ensures
        r@ == dedup_menu(),
{
    let mut items: Vec<MenuItem> = Vec::new();
    items.push(action_item("About Dedup", MenuAction::About));
    items.push(separator());
    items.push(action_item("Preferences\u{2026}", MenuAction::Preferences));
    items.push(separator());
    items.push(MenuItem::Services);
    items.push(separator());
    items.push(action_item("Hide Dedup", MenuAction::Hide));
    items.push(separator());
    items.push(action_item("Quit Dedup", MenuAction::Quit));
    assert(item_models(items@) =~= dedup_menu().items);
    Menu { name: "Dedup".to_owned(), items }
}

/// The menu `File`.
fn build_file_menu(recents: &[RecentProject], home: Option<&str>) -> (r: Menu)
    ensures
        r@ == file_menu(recents@, opt_text(home)),
{
    let mut items: Vec<MenuItem> = Vec::new();
    items.push(action_item("Open\u{2026}", MenuAction::OpenFolder));
    items.push(build_open_recent_submenu(recents, home));
    items.push(separator());
    items.push(action_item("Close Window", MenuAction::CloseWindow));
    assert(item_models(items@) =~= file_menu(recents@, opt_text(home)).items);
    Menu { name: "File".to_owned(), items }
}

/// The menu `Scan`.
fn build_scan_menu() -> (r: Menu)
    ensures
        r@ == scan_menu(),
{
    let mut items: Vec<MenuItem> = Vec::new();
    items.push(action_item("Start Scan", MenuAction::StartScan));
    items.push(action_item("Stop Scan", MenuAction::StopScan));
    items.push(separator());
    items.push(action_item("Clear Cache\u{2026}", MenuAction::ClearCache));
    assert(item_models(items@) =~= scan_menu().items);
    Menu { name: "Scan".to_owned(), items }
}

/// The menu `View`.
fn build_view_menu() -> (r: Menu)
    ensures
        r@ == view_menu(),
{
    let mut items: Vec<MenuItem> = Vec::new();
    items.push(action_item("Toggle Sidebar", MenuAction::ToggleSidebar));
    items.push(action_item("Focus Sidebar", MenuAction::FocusSidebar));
    items.push(action_item("Focus Detail", MenuAction::FocusDetail));
    items.push(separator());
    items.push(action_item("Find in Sidebar", MenuAction::FindInSidebar));
    assert(item_models(items@) =~= view_menu().items);
    Menu { name: "View".to_owned(), items }
}

/// The menu `Window`.
fn build_window_menu() -> (r: Menu)
    ensures
        r@ == window_menu(),
{
    let items: Vec<MenuItem> = Vec::new();
    assert(item_models(items@) =~= window_menu().items);
    Menu { name: "Window".to_owned(), items }
}

/// The menu `Help`.
fn build_help_menu() -> (r: Menu)
    ensures
        r@ == help_menu(),
{
    let mut items: Vec<MenuItem> = Vec::new();
    items.push(action_item("Dedup Help", MenuAction::Help));
    items.push(action_item("Report Issue\u{2026}", MenuAction::ReportIssue));
    assert(item_models(items@) =~= help_menu().items);
    Menu { name: "Help".to_owned(), items }
}

/// The menus, from left to right.
pub fn build_menus(recents: &[RecentProject], home: Option<&str>) -> (r: Vec<Menu>)
    ensures
        menu_models(r@) == menu_tree(recents@, opt_text(home)),
{
    let mut menus: Vec<Menu> = Vec::new();
    menus.push(build_dedup_menu());
    menus.push(build_file_menu(recents, home));
    menus.push(build_scan_menu());
    menus.push(build_view_menu());
    menus.push(build_window_menu());
    menus.push(build_help_menu());
    assert(menu_models(menus@) =~= menu_tree(recents@, opt_text(home)));
    menus
}

/// A keyboard shortcut.
#[derive(Debug, Clone, Copy)]
pub struct Shortcut {
    pub keystroke: &'static str,
    pub action: MenuAction,
    /// Whether the key goes to the search field instead, when that has the
    /// focus.
    pub not_in_search: bool,
}

/// What a [`Shortcut`] stands for.
pub struct ShortcutModel {
    pub keystroke: Seq<char>,
    pub action: MenuAction,
    pub not_in_search: bool,
}

impl View for Shortcut {
    type V = ShortcutModel;

    open spec fn view(&self) -> ShortcutModel {
        ShortcutModel {
            keystroke: self.keystroke@,
            action: self.action,
            not_in_search: self.not_in_search,
        }
    }
}

/// A shortcut that holds everywhere.
pub open spec fn everywhere(keystroke: Seq<char>, action: MenuAction) -> ShortcutModel {
    ShortcutModel { keystroke, action, not_in_search: false }
}

/// A shortcut of the list, which leaves its key to the search field.
pub open spec fn in_list(keystroke: Seq<char>, action: MenuAction) -> ShortcutModel {
    ShortcutModel { keystroke, action, not_in_search: true }
}

/// The shortcuts.
pub open spec fn shortcut_table() -> Seq<ShortcutModel> {
    seq![
        everywhere("cmd-,"@, MenuAction::Preferences),
        everywhere("cmd-q"@, MenuAction::Quit),
        everywhere("cmd-o"@, MenuAction::OpenFolder),
        everywhere("cmd-w"@, MenuAction::CloseWindow),
        everywhere("cmd-r"@, MenuAction::StartScan),
        everywhere("cmd-."@, MenuAction::StopScan),
        everywhere("cmd-b"@, MenuAction::ToggleSidebar),
        everywhere("cmd-1"@, MenuAction::FocusSidebar),
        everywhere("cmd-2"@, MenuAction::FocusDetail),
        everywhere("cmd-f"@, MenuAction::FindInSidebar),
        in_list("j"@, MenuAction::NextGroup),
        in_list("down"@, MenuAction::NextGroup),
        in_list("k"@, MenuAction::PrevGroup),
        in_list("up"@, MenuAction::PrevGroup),
        in_list("enter"@, MenuAction::ActivateGroup),
        in_list("x"@, MenuAction::DismissCurrentGroup),
        in_list("o"@, MenuAction::OpenSelectedInEditor),
    ]
}

/// One shortcut.
fn shortcut(keystroke: &'static str, action: MenuAction, not_in_search: bool) -> (r: Shortcut)
    ensures
        r@ == (ShortcutModel { keystroke: keystroke@, action, not_in_search }),
{
    Shortcut { keystroke, action, not_in_search }
}

/// The shortcuts.
pub fn shortcuts() -> (r: Vec<Shortcut>)
    ensures
        r@.len() == shortcut_table().len(),
        forall|i: int| 0 <= i < r@.len() ==> (#[trigger] r@[i])@ == shortcut_table()[i],
{
    let mut out: Vec<Shortcut> = Vec::new();
    out.push(shortcut("cmd-,", MenuAction::Preferences, false));
    out.push(shortcut("cmd-q", MenuAction::Quit, false));
    out.push(shortcut("cmd-o", MenuAction::OpenFolder, false));
    out.push(shortcut("cmd-w", MenuAction::CloseWindow, false));
    out.push(shortcut("cmd-r", MenuAction::StartScan, false));
    out.push(shortcut("cmd-.", MenuAction::StopScan, false));
    out.push(shortcut("cmd-b", MenuAction::ToggleSidebar, false));
    out.push(shortcut("cmd-1", MenuAction::FocusSidebar, false));
    out.push(shortcut("cmd-2", MenuAction::FocusDetail, false));
    out.push(shortcut("cmd-f", MenuAction::FindInSidebar, false));
    out.push(shortcut("j", MenuAction::NextGroup, true));
    out.push(shortcut("down", MenuAction::NextGroup, true));
    out.push(shortcut("k", MenuAction::PrevGroup, true));
    out.push(shortcut("up", MenuAction::PrevGroup, true));
    out.push(shortcut("enter", MenuAction::ActivateGroup, true));
    out.push(shortcut("x", MenuAction::DismissCurrentGroup, true));
    out.push(shortcut("o", MenuAction::OpenSelectedInEditor, true));
    out
}

/// Keys that the search field can take as text are left to it, and no key has
/// two meanings.
pub proof fn law_shortcuts(i: int, j: int)
    requires
        0 <= i < shortcut_table().len(),
        0 <= j < shortcut_table().len(),
    ensures
        shortcut_table()[i].not_in_search <==> !crate::text::begins_with(
            shortcut_table()[i].keystroke,
            "cmd-"@,
        ),
        i != j ==> shortcut_table()[i].keystroke != shortcut_table()[j].keystroke,
{
    reveal_strlit("cmd-");
    reveal_strlit("cmd-,");
    reveal_strlit("cmd-q");
    reveal_strlit("cmd-o");
    reveal_strlit("cmd-w");
    reveal_strlit("cmd-r");
    reveal_strlit("cmd-.");
    reveal_strlit("cmd-b");
    reveal_strlit("cmd-1");
    reveal_strlit("cmd-2");
    reveal_strlit("cmd-f");
    reveal_strlit("j");
    reveal_strlit("down");
    reveal_strlit("k");
    reveal_strlit("up");
    reveal_strlit("enter");
    reveal_strlit("x");
    reveal_strlit("o");
    let t = shortcut_table();
    assert(forall|k: int|
        0 <= k < 10 ==> (#[trigger] t[k]).keystroke.len() == 5 && t[k].keystroke.take(4)
            =~= "cmd-"@);
    assert(forall|k: int| 10 <= k < 17 ==> (#[trigger] t[k]).keystroke[0] != 'c');
    assert("cmd-"@[0] == 'c');
    assert(t[0].keystroke[4] == ',');
    assert(t[1].keystroke[4] == 'q');
    assert(t[2].keystroke[4] == 'o');
    assert(t[3].keystroke[4] == 'w');
    assert(t[4].keystroke[4] == 'r');
    assert(t[5].keystroke[4] == '.');
    assert(t[6].keystroke[4] == 'b');
    assert(t[7].keystroke[4] == '1');
    assert(t[8].keystroke[4] == '2');
    assert(t[9].keystroke[4] == 'f');
    assert(t[10].keystroke[0] == 'j');
    assert(t[11].keystroke[0] == 'd');
    assert(t[12].keystroke[0] == 'k');
    assert(t[13].keystroke[0] == 'u');
    assert(t[14].keystroke[0] == 'e');
    assert(t[15].keystroke[0] == 'x');
    assert(t[16].keystroke[0] == 'o');
}

/// The menus stand from left to right in this order.
pub proof fn law_menu_order(recents: Seq<RecentProject>, home: Option<Seq<char>>)
    ensures
        menu_tree(recents, home).map_values(|m: MenuModel| m.name) == seq![
            "Dedup"@,
            "File"@,
            "Scan"@,
            "View"@,
            "Window"@,
            "Help"@,
        ],
{
    assert(menu_tree(recents, home).map_values(|m: MenuModel| m.name) =~= seq![
        "Dedup"@,
        "File"@,
        "Scan"@,
        "View"@,
        "Window"@,
        "Help"@,
    ]);
}

/// The first menu is about the program: what it is, its preferences, hiding and
/// quitting it.
pub proof fn law_dedup_menu(recents: Seq<RecentProject>, home: Option<Seq<char>>)
    ensures
        menu_tree(recents, home)[0].items.len() == 9,
        menu_tree(recents, home)[0].items[0] == ItemModel::Entry(
            EntryModel::Action {
                label: "About Dedup"@,
                action: MenuAction::About,
                disabled: false,
            },
        ),
        menu_tree(recents, home)[0].items[1] == ItemModel::Entry(EntryModel::Separator),
        menu_tree(recents, home)[0].items[2] == ItemModel::Entry(
            EntryModel::Action {
                label: "Preferences\u{2026}"@,
                action: MenuAction::Preferences,
                disabled: false,
            },
        ),
        menu_tree(recents, home)[0].items[3] == ItemModel::Entry(EntryModel::Separator),
        menu_tree(recents, home)[0].items[4] == ItemModel::Services,
        menu_tree(recents, home)[0].items[5] == ItemModel::Entry(EntryModel::Separator),
        menu_tree(recents, home)[0].items[6] == ItemModel::Entry(
            EntryModel::Action {
                label: "Hide Dedup"@,
                action: MenuAction::Hide,
                disabled: false,
            },
        ),
        menu_tree(recents, home)[0].items[7] == ItemModel::Entry(EntryModel::Separator),
        menu_tree(recents, home)[0].items[8] == ItemModel::Entry(
            EntryModel::Action {
                label: "Quit Dedup"@,
                action: MenuAction::Quit,
                disabled: false,
            },
        ),
{
}

/// The menu of files opens a folder, one of the recent ones among them, and closes
/// the window.
pub proof fn law_file_menu(recents: Seq<RecentProject>, home: Option<Seq<char>>)
    ensures
        menu_tree(recents, home)[1].items.len() == 4,
        menu_tree(recents, home)[1].items[0] == ItemModel::Entry(
            EntryModel::Action {
                label: "Open\u{2026}"@,
                action: MenuAction::OpenFolder,
                disabled: false,
            },
        ),
        menu_tree(recents, home)[1].items[1] == (ItemModel::Submenu {
            label: "Open Recent"@,
            entries: recent_entries(recents, home),
        }),
        menu_tree(recents, home)[1].items[2] == ItemModel::Entry(EntryModel::Separator),
        menu_tree(recents, home)[1].items[3] == ItemModel::Entry(
            EntryModel::Action {
                label: "Close Window"@,
                action: MenuAction::CloseWindow,
                disabled: false,
            },
        ),
{
}

/// The menu of scans starts and stops them, and clears the cache.
pub proof fn law_scan_menu(recents: Seq<RecentProject>, home: Option<Seq<char>>)
    ensures
        menu_tree(recents, home)[2].items.len() == 4,
        menu_tree(recents, home)[2].items[0] == ItemModel::Entry(
            EntryModel::Action {
                label: "Start Scan"@,
                action: MenuAction::StartScan,
                disabled: false,
            },
        ),
        menu_tree(recents, home)[2].items[1] == ItemModel::Entry(
            EntryModel::Action {
                label: "Stop Scan"@,
                action: MenuAction::StopScan,
                disabled: false,
            },
        ),
        menu_tree(recents, home)[2].items[2] == ItemModel::Entry(EntryModel::Separator),
        menu_tree(recents, home)[2].items[3] == ItemModel::Entry(
            EntryModel::Action {
                label: "Clear Cache\u{2026}"@,
                action: MenuAction::ClearCache,
                disabled: false,
            },
        ),
{
}

/// The menu of views is about the two panes and the search.
pub proof fn law_view_menu(recents: Seq<RecentProject>, home: Option<Seq<char>>)
    ensures
        menu_tree(recents, home)[3].items.len() == 5,
        menu_tree(recents, home)[3].items[0] == ItemModel::Entry(
            EntryModel::Action {
                label: "Toggle Sidebar"@,
                action: MenuAction::ToggleSidebar,
                disabled: false,
            },
        ),
        menu_tree(recents, home)[3].items[1] == ItemModel::Entry(
            EntryModel::Action {
                label: "Focus Sidebar"@,
                action: MenuAction::FocusSidebar,
                disabled: false,
            },
        ),
        menu_tree(recents, home)[3].items[2] == ItemModel::Entry(
            EntryModel::Action {
                label: "Focus Detail"@,
                action: MenuAction::FocusDetail,
                disabled: false,
            },
        ),
        menu_tree(recents, home)[3].items[3] == ItemModel::Entry(EntryModel::Separator),
        menu_tree(recents, home)[3].items[4] == ItemModel::Entry(
            EntryModel::Action {
                label: "Find in Sidebar"@,
                action: MenuAction::FindInSidebar,
                disabled: false,
            },
        ),
{
}

/// The menu of windows is left to the system.
pub proof fn law_window_menu(recents: Seq<RecentProject>, home: Option<Seq<char>>)
    ensures
        menu_tree(recents, home)[4].items.len() == 0,
{
}

/// The last menu helps.
pub proof fn law_help_menu(recents: Seq<RecentProject>, home: Option<Seq<char>>)
    ensures
        menu_tree(recents, home)[5].items.len() == 2,
        menu_tree(recents, home)[5].items[0] == ItemModel::Entry(
            EntryModel::Action {
                label: "Dedup Help"@,
                action: MenuAction::Help,
                disabled: false,
            },
        ),
        menu_tree(recents, home)[5].items[1] == ItemModel::Entry(
            EntryModel::Action {
                label: "Report Issue\u{2026}"@,
                action: MenuAction::ReportIssue,
                disabled: false,
            },
        ),
{
}

/// Where there are no recent projects, their menu says so and offers nothing.
pub proof fn law_no_recent_projects(home: Option<Seq<char>>)
    ensures
        recent_entries(Seq::empty(), home) == seq![
            EntryModel::Action {
                label: "No Recent Projects"@,
                action: MenuAction::NoRecent,
                disabled: true,
            },
        ],
{
}

/// The menu of recent projects offers the first five of them, in order, each under
/// its text, and behind them to clear the menu.
pub proof fn law_recent_projects(recents: Seq<RecentProject>, home: Option<Seq<char>>, i: int)
    requires
        recents.len() > 0,
        0 <= i < recents.len(),
        i < 5,
    ensures
        ({
            let entries = recent_entries(recents, home);
            let n = if recents.len() < 5 {
                recents.len() as int
            } else {
                5
            };
            &&& entries.len() == n + 2
            &&& entries[i] == (EntryModel::Action {
                label: menu_text(recents[i].path@, home),
                action: seq![
                    MenuAction::OpenRecent0,
                    MenuAction::OpenRecent1,
                    MenuAction::OpenRecent2,
                    MenuAction::OpenRecent3,
                    MenuAction::OpenRecent4,
                ][i],
                disabled: false,
            })
            &&& entries[n] == EntryModel::Separator
            &&& entries[n + 1] == (EntryModel::Action {
                label: "Clear Menu"@,
                action: MenuAction::ClearRecents,
                disabled: false,
            })
        }),
{
}

/// The shortcuts with the command key.
pub proof fn law_shortcuts_everywhere()
    ensures
        shortcut_table().len() == 17,
        shortcut_table()[0] == (ShortcutModel {
            keystroke: "cmd-,"@,
            action: MenuAction::Preferences,
            not_in_search: false,
        }),
        shortcut_table()[1] == (ShortcutModel {
            keystroke: "cmd-q"@,
            action: MenuAction::Quit,
            not_in_search: false,
        }),
        shortcut_table()[2] == (ShortcutModel {
            keystroke: "cmd-o"@,
            action: MenuAction::OpenFolder,
            not_in_search: false,
        }),
        shortcut_table()[3] == (ShortcutModel {
            keystroke: "cmd-w"@,
            action: MenuAction::CloseWindow,
            not_in_search: false,
        }),
        shortcut_table()[4] == (ShortcutModel {
            keystroke: "cmd-r"@,
            action: MenuAction::StartScan,
            not_in_search: false,
        }),
        shortcut_table()[5] == (ShortcutModel {
            keystroke: "cmd-."@,
            action: MenuAction::StopScan,
            not_in_search: false,
        }),
        shortcut_table()[6] == (ShortcutModel {
            keystroke: "cmd-b"@,
            action: MenuAction::ToggleSidebar,
            not_in_search: false,
        }),
        shortcut_table()[7] == (ShortcutModel {
            keystroke: "cmd-1"@,
            action: MenuAction::FocusSidebar,
            not_in_search: false,
        }),
        shortcut_table()[8] == (ShortcutModel {
            keystroke: "cmd-2"@,
            action: MenuAction::FocusDetail,
            not_in_search: false,
        }),
        shortcut_table()[9] == (ShortcutModel {
            keystroke: "cmd-f"@,
            action: MenuAction::FindInSidebar,
            not_in_search: false,
        }),
{
}

/// The shortcuts of the list of groups.
pub proof fn law_shortcuts_in_list()
    ensures
        shortcut_table()[10] == (ShortcutModel {
            keystroke: "j"@,
            action: MenuAction::NextGroup,
            not_in_search: true,
        }),
        shortcut_table()[11] == (ShortcutModel {
            keystroke: "down"@,
            action: MenuAction::NextGroup,
            not_in_search: true,
        }),
        shortcut_table()[12] == (ShortcutModel {
            keystroke: "k"@,
            action: MenuAction::PrevGroup,
            not_in_search: true,
        }),
        shortcut_table()[13] == (ShortcutModel {
            keystroke: "up"@,
            action: MenuAction::PrevGroup,
            not_in_search: true,
        }),
        shortcut_table()[14] == (ShortcutModel {
            keystroke: "enter"@,
            action: MenuAction::ActivateGroup,
            not_in_search: true,
        }),
        shortcut_table()[15] == (ShortcutModel {
            keystroke: "x"@,
            action: MenuAction::DismissCurrentGroup,
            not_in_search: true,
        }),
        shortcut_table()[16] == (ShortcutModel {
            keystroke: "o"@,
            action: MenuAction::OpenSelectedInEditor,
            not_in_search: true,
        }),
{
}

} // verus!
