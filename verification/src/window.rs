//! The window: where it lets the mouse through, and the menu of its icon.
use vstd::prelude::*;

use crate::text::same;
use crate::text;

verus! {

/// Which cells of the window show something.
#[derive(Debug, PartialEq, Eq)]
pub struct AlphaMask {
    pub cols: u32,
    pub rows: u32,
    /// The side of a cell; zero where there is no mask.
    pub cell_size_css: u32,
    /// A byte for each cell, row by row; what is not zero shows something.
    pub data: Vec<u8>,
}

/// A mask that says something.
pub open spec fn is_set(m: AlphaMask) -> bool {
    m.cols != 0 && m.rows != 0 && m.cell_size_css != 0
}

/// The cell shows something. A cell that the mask does not reach shows nothing.
pub open spec fn shows(m: AlphaMask, col: int, row: int) -> bool {
    is_set(m) && 0 <= col < m.cols && 0 <= row < m.rows && row * m.cols + col < m.data@.len()
        && m.data@[row * m.cols + col] != 0
}

/// Whether a point shows something: `cell` is the column and row that it is in,
/// where it is inside the window.
pub fn check_opaque_at(mask: &AlphaMask, cell: Option<(u32, u32)>) -> (r: bool)
    ensures
        r == (match cell {
            Some((c, w)) => shows(*mask, c as int, w as int),
            None => false,
        }),
{
    if mask.cols == 0 || mask.rows == 0 || mask.cell_size_css == 0 {
        return false;
    }
    match cell {
        None => false,
        Some((c, w)) => {
            if c >= mask.cols || w >= mask.rows {
                return false;
            }
            assert(0 <= w * mask.cols <= 0xFFFF_FFFF * 0xFFFF_FFFF) by (nonlinear_arith)
                requires
                    0 <= w <= 0xFFFF_FFFF,
                    0 <= mask.cols <= 0xFFFF_FFFF,
            ;
            let index: u64 = w as u64 * mask.cols as u64 + c as u64;
            if index >= mask.data.len() as u64 {
                return false;
            }
            mask.data[index as usize] != 0
        },
    }
}

/// Whether the window last let the mouse through, where that was ever set.
#[derive(Clone, Copy, Debug, PartialEq, Eq, Structural)]
pub struct CursorWatch {
    pub last_ignore: Option<bool>,
}

/// What is set after a look at the mouse; `None` where nothing changes. The
/// window goes from catching the mouse to letting it through only while the
/// button is up; the other way it goes at once.
pub open spec fn wanted(last: Option<bool>, opaque: bool, button_held: bool) -> Option<bool> {
    if last == Some(!opaque) || (!opaque && button_held) {
        None
    } else {
        Some(!opaque)
    }
}

impl CursorWatch {
    /// Nothing was set.
    pub fn new() -> (r: Self)
        ensures
            r.last_ignore is None,
    {
        CursorWatch { last_ignore: None }
    }

    /// A look at the mouse: says what is set.
    pub fn step(&mut self, opaque: bool, button_held: bool) -> (r: Option<bool>)
        ensures
            r == wanted(old(self).last_ignore, opaque, button_held),
            final(self).last_ignore == (if r is Some {
                r
            } else {
                old(self).last_ignore
            }),
    {
        let want: bool = !opaque;
        match self.last_ignore {
            Some(last) => {
                if last == want {
                    return None;
                }
            },
            None => {},
        }
        if want && button_held {
            return None;
        }
        self.last_ignore = Some(want);
        Some(want)
    }
}

/// What is last set after the first `n` looks: each is whether the point shows
/// something, and whether the button is held.
pub open spec fn set_after(looks: Seq<(bool, bool)>, n: int) -> Option<bool>
    decreases n,
{
    if n <= 0 {
        None
    } else {
        let last = set_after(looks, n - 1);
        match wanted(last, looks[n - 1].0, looks[n - 1].1) {
            Some(w) => Some(w),
            None => last,
        }
    }
}

/// However the mouse moves: right after a look at something shown the window
/// catches the mouse, and while the button is held it never begins to let the
/// mouse through.
pub proof fn a_drag_is_never_dropped(looks: Seq<(bool, bool)>, n: int)
    requires
        0 < n <= looks.len(),
    ensures
        looks[n - 1].0 ==> set_after(looks, n) == Some(false),
        looks[n - 1].1 && set_after(looks, n) == Some(true) ==> set_after(looks, n - 1) == Some(
            true,
        ),
        !looks[n - 1].0 && !looks[n - 1].1 ==> set_after(looks, n) == Some(true),
{
}

pub const ID_TOGGLE_WINDOW: &'static str = "toggle_window";

pub const ID_MODE_LOW: &'static str = "mode_low";

pub const ID_MODE_ADVANCED: &'static str = "mode_advanced";

pub const ID_QUIET_TOGGLE: &'static str = "quiet_toggle";

pub const ID_OPEN_SETTINGS: &'static str = "open_settings";

pub const ID_QUIT: &'static str = "quit";

/// An entry of the menu.
#[derive(Clone, Copy, Debug, PartialEq, Eq)]
pub enum MenuEntry {
    Plain { id: &'static str, label: &'static str },
    Checked { id: &'static str, label: &'static str, on: bool },
    Separator,
}

/// The entries of the menu.
pub open spec fn menu_of(advanced: bool, quiet: bool) -> Seq<MenuEntry> {
    seq![
        MenuEntry::Plain { id: ID_TOGGLE_WINDOW, label: "表示 / 非表示" },
        MenuEntry::Separator,
        MenuEntry::Checked { id: ID_MODE_LOW, label: "low モード (辞書のみ)", on: !advanced },
        MenuEntry::Checked { id: ID_MODE_ADVANCED, label: "advanced モード (LLM)", on: advanced },
        MenuEntry::Checked { id: ID_QUIET_TOGGLE, label: "静音モード", on: quiet },
        MenuEntry::Separator,
        MenuEntry::Plain { id: ID_OPEN_SETTINGS, label: "設定を開く" },
        MenuEntry::Separator,
        MenuEntry::Plain { id: ID_QUIT, label: "終了" },
    ]
}

/// Lays out the menu: of the two modes the one in use is checked.
pub fn build_menu(advanced: bool, quiet: bool) -> (r: Vec<MenuEntry>)
    ensures
        r@ == menu_of(advanced, quiet),
{
    let out = vec![
        MenuEntry::Plain { id: ID_TOGGLE_WINDOW, label: "表示 / 非表示" },
        MenuEntry::Separator,
        MenuEntry::Checked { id: ID_MODE_LOW, label: "low モード (辞書のみ)", on: !advanced },
        MenuEntry::Checked { id: ID_MODE_ADVANCED, label: "advanced モード (LLM)", on: advanced },
        MenuEntry::Checked { id: ID_QUIET_TOGGLE, label: "静音モード", on: quiet },
        MenuEntry::Separator,
        MenuEntry::Plain { id: ID_OPEN_SETTINGS, label: "設定を開く" },
        MenuEntry::Separator,
        MenuEntry::Plain { id: ID_QUIT, label: "終了" },
    ];
    assert(out@ =~= menu_of(advanced, quiet));
    out
}

/// What an entry of the menu does.
#[derive(Clone, Copy, Debug, PartialEq, Eq, Structural)]
pub enum MenuAction {
    ToggleWindow,
    /// Talks from the dictionary alone, or with a language model.
    SetMode { advanced: bool },
    ToggleQuiet,
    OpenSettings,
    Quit,
    Nothing,
}

/// What the entry of that name does.
pub open spec fn action_of(id: Seq<char>) -> MenuAction {
    if id == ID_TOGGLE_WINDOW@ {
        MenuAction::ToggleWindow
    } else if id == ID_MODE_LOW@ {
        MenuAction::SetMode { advanced: false }
    } else if id == ID_MODE_ADVANCED@ {
        MenuAction::SetMode { advanced: true }
    } else if id == ID_QUIET_TOGGLE@ {
        MenuAction::ToggleQuiet
    } else if id == ID_OPEN_SETTINGS@ {
        MenuAction::OpenSettings
    } else if id == ID_QUIT@ {
        MenuAction::Quit
    } else {
        MenuAction::Nothing
    }
}

/// Says what the entry of that name does.
pub fn handle_menu(id: &str) -> (r: MenuAction)
    ensures
        r == action_of(id@),
{
    if same(id, ID_TOGGLE_WINDOW) {
        MenuAction::ToggleWindow
    } else if same(id, ID_MODE_LOW) {
        MenuAction::SetMode { advanced: false }
    } else if same(id, ID_MODE_ADVANCED) {
        MenuAction::SetMode { advanced: true }
    } else if same(id, ID_QUIET_TOGGLE) {
        MenuAction::ToggleQuiet
    } else if same(id, ID_OPEN_SETTINGS) {
        MenuAction::OpenSettings
    } else if same(id, ID_QUIT) {
        MenuAction::Quit
    } else {
        MenuAction::Nothing
    }
}

/// The settings that the menu changes.
#[derive(Clone, Copy, Debug, PartialEq, Eq, Structural)]
pub struct MenuSettings {
    pub advanced: bool,
    pub quiet_mode: bool,
}

/// The settings after an entry was chosen.
pub open spec fn settings_after(s: MenuSettings, a: MenuAction) -> MenuSettings {
    match a {
        MenuAction::SetMode { advanced } => MenuSettings { advanced, quiet_mode: s.quiet_mode },
        MenuAction::ToggleQuiet => MenuSettings { advanced: s.advanced, quiet_mode: !s.quiet_mode },
        _ => s,
    }
}

impl MenuSettings {
    /// Takes over what an entry changes; says whether it is one that changes
    /// settings, which are then kept and told about.
    pub fn choose_entry(&mut self, action: MenuAction) -> (r: bool)
        ensures
            *final(self) == settings_after(*old(self), action),
            r == (action is SetMode || action is ToggleQuiet),
    {
        match action {
            MenuAction::SetMode { advanced } => {
                self.advanced = advanced;
                true
            },
            MenuAction::ToggleQuiet => {
                self.quiet_mode = !self.quiet_mode;
                true
            },
            _ => false,
        }
    }
}

/// Whether the window is hidden when its icon is clicked: only where it is
/// known to be visible; otherwise it is shown.
pub fn hides_on_toggle(visible: Option<bool>) -> (r: bool)
    ensures
        r == (visible == Some(true)),
{
    match visible {
        Some(v) => v,
        None => false,
    }
}

/// How long the farewell is held, by the number of its characters: as long as it
/// is shown, up to a limit, and a little more. Without one, not at all.
pub open spec fn farewell_ms(chars: Option<nat>) -> nat {
    match chars {
        None => 0,
        Some(n) => (if 1600 + 60 * n < 8000 {
            1600 + 60 * n
        } else {
            8000
        }) + 500,
    }
}

/// How long to wait before leaving, in milliseconds, given the texts that are
/// said.
pub fn farewell_hold_ms(main: Option<&str>, sub: Option<&str>) -> (r: u64)
    ensures
        r == farewell_ms(
            match main {
                None => None,
                Some(m) => Some(
                    m@.len() + (match sub {
                        Some(s) => s@.len(),
                        None => 0,
                    }),
                ),
            },
        ),
{
    match main {
        None => 0,
        Some(m) => {
            let a: u64 = text::char_count(m) as u64;
            let b: u64 = match sub {
                Some(s) => text::char_count(s) as u64,
                None => 0,
            };
            if a >= 107 || b >= 107 || a + b >= 107 {
                8500
            } else {
                1600 + 60 * (a + b) + 500
            }
        },
    }
}

/// A cell shows something exactly where the mask says so, row by row; outside the mask,
/// or without one, nothing does.
pub proof fn a_cell_shows_what_its_byte_says(m: AlphaMask, col: int, row: int)
    requires
        m.cols > 0,
        m.rows > 0,
        m.cell_size_css > 0,
        m.data@.len() == m.cols * m.rows,
        0 <= col < m.cols,
        0 <= row < m.rows,
    ensures
        0 <= row * m.cols + col < m.data@.len(),
        shows(m, col, row) <==> m.data@[row * m.cols + col] != 0,
        !shows(m, col, m.rows + row),
        !shows(m, m.cols + col, row),
        !shows(m, -1 - col, row),
        !shows(m, col, -1 - row),
{
    assert(0 <= row * m.cols + col < m.cols * m.rows) by (nonlinear_arith)
        requires
            0 <= col < m.cols,
            0 <= row < m.rows,
    ;
}

/// The menu shows the settings, and choosing an entry of it changes what the entry
/// says: the mode that was chosen is the one that is on, and quiet is turned over.
pub proof fn the_menu_shows_what_was_chosen(s: MenuSettings, advanced: bool)
    ensures
        ({
            let t = settings_after(s, MenuAction::SetMode { advanced });
            let q = settings_after(s, MenuAction::ToggleQuiet);
            let menu = menu_of(t.advanced, t.quiet_mode);
            let quiet = menu_of(q.advanced, q.quiet_mode);
            &&& menu[2] == (MenuEntry::Checked {
                id: ID_MODE_LOW,
                label: "low モード (辞書のみ)",
                on: !advanced,
            })
            &&& menu[3] == (MenuEntry::Checked {
                id: ID_MODE_ADVANCED,
                label: "advanced モード (LLM)",
                on: advanced,
            })
            &&& t.quiet_mode == s.quiet_mode
            &&& quiet[4] == (MenuEntry::Checked {
                id: ID_QUIET_TOGGLE,
                label: "静音モード",
                on: !s.quiet_mode,
            })
            &&& q.advanced == s.advanced
            &&& settings_after(q, MenuAction::ToggleQuiet) == s
            &&& settings_after(s, MenuAction::Quit) == s && settings_after(
                s,
                MenuAction::ToggleWindow,
            ) == s && settings_after(s, MenuAction::OpenSettings) == s
        }),
{
}

/// Every entry of the menu does what it stands for.
pub proof fn every_entry_has_its_action()
    ensures
        action_of("toggle_window"@) == MenuAction::ToggleWindow,
        action_of("mode_low"@) == (MenuAction::SetMode { advanced: false }),
        action_of("mode_advanced"@) == (MenuAction::SetMode { advanced: true }),
        action_of("quiet_toggle"@) == MenuAction::ToggleQuiet,
        action_of("open_settings"@) == MenuAction::OpenSettings,
        action_of("quit"@) == MenuAction::Quit,
{
    reveal_strlit("toggle_window");
    reveal_strlit("mode_low");
    reveal_strlit("mode_advanced");
    reveal_strlit("quiet_toggle");
    reveal_strlit("open_settings");
    reveal_strlit("quit");
    assert("toggle_window"@.len() == 13 && "toggle_window"@[0] == 't');
    assert("mode_low"@.len() == 8);
    assert("mode_advanced"@.len() == 13 && "mode_advanced"@[0] == 'm');
    assert("quiet_toggle"@.len() == 12);
    assert("open_settings"@.len() == 13 && "open_settings"@[0] == 'o');
    assert("quit"@.len() == 4);
}

/// A farewell is held for longer the more there is to read, from about two seconds to
/// eight and a half; where there is none, not at all.
pub proof fn a_longer_farewell_is_held_longer(n: nat)
    ensures
        farewell_ms(None) == 0,
        farewell_ms(Some(0)) == 2100,
        farewell_ms(Some(n)) <= farewell_ms(Some(n + 1)) <= farewell_ms(Some(n)) + 60,
        n <= 106 ==> farewell_ms(Some(n)) == 2100 + 60 * n,
        n > 106 ==> farewell_ms(Some(n)) == 8500,
{
}

/// Once what is wanted was done, nothing more is wanted until the pointer leaves what it
/// is over; the window lets the pointer through exactly where it is not opaque, but never
/// begins to while a button is held.
pub proof fn the_pointer_goes_through_what_cannot_be_seen(
    last: Option<bool>,
    opaque: bool,
    button_held: bool,
)
    ensures
        wanted(last, opaque, button_held) matches Some(b) ==> b == !opaque && last != Some(b),
        wanted(last, opaque, button_held) matches Some(b) ==> wanted(
            Some(b),
            opaque,
            button_held,
        ) is None,
        opaque && last != Some(false) ==> wanted(last, opaque, button_held) == Some(false),
        !opaque && !button_held && last != Some(true) ==> wanted(last, opaque, button_held) == Some(
            true,
        ),
        !opaque && button_held ==> wanted(last, opaque, button_held) is None,
{
}

} // verus!
