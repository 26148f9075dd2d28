//! What a key does in the terminal UI's list and detail panes: the
//! command the app then carries out. An open overlay (a picker, an editor,
//! a prompt) takes every key first; Ctrl-C quits.

use vstd::prelude::*;
use crate::toque::KeyName;

verus! {

/// A key press with its modifiers.
#[derive(Debug, Clone, Copy, PartialEq, Eq, Structural)]
pub struct Key {
    pub code: KeyName,
    pub ctrl: bool,
    pub shift: bool,
}

/// Which pane has the keyboard.
#[derive(Debug, Clone, Copy, PartialEq, Eq, Structural)]
pub enum Focus {
    List,
    Detail,
}

/// What the key dispatch reads of the UI's state.
#[derive(Debug, Clone, Copy, PartialEq, Eq, Structural)]
pub struct KeyContext {
    /// A picker, editor or prompt is open.
    pub overlay_open: bool,
    pub focus: Focus,
    /// Some yaks are marked for a bulk action.
    pub marked: bool,
    /// The cursor is on a yak.
    pub has_selected: bool,
    /// A visual selection is anchored in the detail pane.
    pub detail_anchor: bool,
    /// A find is active in the detail pane.
    pub detail_find: bool,
    /// The filter differs from the current view's.
    pub view_modified: bool,
    /// The visible page height, in rows.
    pub page: u16,
}

/// What the app does for a key.
#[derive(Debug, Clone, Copy, PartialEq, Eq, Structural)]
pub enum Command {
    ClearAnchor,
    ClearFind,
    CopySelectedId,
    CursorTop,
    CycleFamilyScope,
    DetailFindJump(i32),
    DetailLineTo(bool),
    DetailNextTask(i32),
    ExtendSelection(i32),
    FocusDetail,
    FocusList,
    FollowLink,
    JumpBlock(i32),
    JumpLink(i32),
    MoveCursor(i32),
    MoveDetailLine(i32),
    NavBack,
    NavForward,
    Nothing,
    OpenAskOrAnswer,
    OpenAttach,
    OpenBulkStatePicker,
    OpenComment,
    OpenCreate(bool),
    OpenCurrentExternal,
    OpenDepPicker,
    OpenDetailFind,
    OpenDrawer,
    OpenEdit,
    OpenEditAtCursor,
    OpenHelp,
    OpenHerdPicker,
    OpenLabels,
    OpenPriorityPicker,
    OpenReparentPicker,
    OpenSaveView,
    OpenSearch,
    OpenSlaughterConfirm,
    OpenStatePicker,
    OpenTypePicker,
    OpenViewPicker,
    Overlay,
    Quit,
    RevertToView,
    SwitchTab(i32),
    ToggleCollapse,
    ToggleSelected,
    ToggleStar,
    ToggleVisual,
    YankSelection,
}

/// Half a page, at least one row.
pub open spec fn half_page(page: u16) -> i32 {
    if page / 2 >= 1 {
        (page / 2) as i32
    } else {
        1
    }
}

/// A page, at least one row.
pub open spec fn full_page(page: u16) -> i32 {
    if page >= 1 {
        page as i32
    } else {
        1
    }
}

/// The list pane's command for `k`.
pub open spec fn list_command(ctx: KeyContext, k: Key) -> Command {
    let half = half_page(ctx.page);
    let full = full_page(ctx.page);
    if k.code == KeyName::Char('q') {
        Command::Quit
    } else if k.code == KeyName::Char('j') || k.code == KeyName::Down {
        Command::MoveCursor(1)
    } else if k.code == KeyName::Char('k') || k.code == KeyName::Up {
        Command::MoveCursor((-1) as i32)
    } else if k.code == KeyName::Char('g') {
        Command::CursorTop
    } else if k.code == KeyName::Char('G') {
        Command::MoveCursor(536870911)
    } else if k.code == KeyName::Char('d') {
        Command::MoveCursor(half)
    } else if k.code == KeyName::Char('u') {
        Command::MoveCursor((-half) as i32)
    } else if k.code == KeyName::PageDown {
        Command::MoveCursor(full)
    } else if k.code == KeyName::PageUp {
        Command::MoveCursor((-full) as i32)
    } else if k.code == KeyName::Tab || k.code == KeyName::Char(']') {
        Command::SwitchTab(1)
    } else if k.code == KeyName::BackTab || k.code == KeyName::Char('[') {
        Command::SwitchTab((-1) as i32)
    } else if k.code == KeyName::Char(' ') {
        Command::ToggleCollapse
    } else if k.code == KeyName::Char('m') {
        Command::ToggleSelected
    } else if k.code == KeyName::Char('S') {
        if ctx.marked { Command::OpenBulkStatePicker } else { Command::OpenStatePicker }
    } else if k.code == KeyName::Char('P') {
        Command::OpenPriorityPicker
    } else if k.code == KeyName::Char('T') {
        Command::OpenTypePicker
    } else if k.code == KeyName::Char('X') {
        Command::OpenSlaughterConfirm
    } else if k.code == KeyName::Char('L') {
        Command::OpenLabels
    } else if k.code == KeyName::Char('c') {
        Command::OpenCreate(false)
    } else if k.code == KeyName::Char('C') {
        Command::OpenCreate(true)
    } else if k.code == KeyName::Char('E') {
        Command::OpenEdit
    } else if k.code == KeyName::Char('D') {
        Command::OpenDepPicker
    } else if k.code == KeyName::Char('R') {
        Command::OpenReparentPicker
    } else if k.code == KeyName::Char('H') {
        Command::OpenHerdPicker
    } else if k.code == KeyName::Char('/') {
        Command::OpenSearch
    } else if k.code == KeyName::Char('f') {
        Command::OpenDrawer
    } else if k.code == KeyName::Char('*') {
        Command::ToggleStar
    } else if k.code == KeyName::Char('y') {
        Command::CopySelectedId
    } else if k.code == KeyName::Char('M') {
        Command::OpenComment
    } else if k.code == KeyName::Char('A') {
        Command::OpenAttach
    } else if k.code == KeyName::Char('a') {
        Command::OpenAskOrAnswer
    } else if k.code == KeyName::Char('v') {
        Command::OpenViewPicker
    } else if k.code == KeyName::Char('V') {
        Command::OpenSaveView
    } else if k.code == KeyName::Char('?') {
        Command::OpenHelp
    } else if k.code == KeyName::Esc {
        if ctx.view_modified { Command::RevertToView } else { Command::Nothing }
    } else if k.code == KeyName::Char('h') {
        Command::CycleFamilyScope
    } else if k.code == KeyName::Char('l') || k.code == KeyName::Right || k.code == KeyName::Enter {
        if ctx.has_selected { Command::FocusDetail } else { Command::Nothing }
    } else {
        Command::Nothing
    }
}

/// The detail pane's command for `k`: Shift-Up/Down extend a visual
/// selection, Ctrl-N/P jump between content blocks, else by the key.
pub open spec fn detail_command(ctx: KeyContext, k: Key) -> Command {
    let half = half_page(ctx.page);
    if k.shift && (k.code == KeyName::Up || k.code == KeyName::Down) {
        Command::ExtendSelection(if k.code == KeyName::Down { 1i32 } else { -1i32 })
    } else if k.ctrl && (k.code == KeyName::Char('n') || k.code == KeyName::Char('p')) {
        Command::JumpBlock(if k.code == KeyName::Char('n') { 1i32 } else { -1i32 })
    } else {
        detail_plain(ctx, k, half)
    }
}

pub open spec fn detail_plain(ctx: KeyContext, k: Key, half: i32) -> Command {
    if k.code == KeyName::Char('q') {
        Command::Quit
    } else if k.code == KeyName::Char('h') || k.code == KeyName::Left {
        Command::FocusList
    } else if k.code == KeyName::Esc {
        if ctx.detail_anchor { Command::ClearAnchor } else if ctx.detail_find { Command::ClearFind } else { Command::FocusList }
    } else if k.code == KeyName::Tab || k.code == KeyName::Char(']') {
        Command::JumpLink(1)
    } else if k.code == KeyName::BackTab || k.code == KeyName::Char('[') {
        Command::JumpLink((-1) as i32)
    } else if k.code == KeyName::Char('o') {
        Command::NavBack
    } else if k.code == KeyName::Char('i') {
        Command::NavForward
    } else if k.code == KeyName::Char('/') {
        Command::OpenDetailFind
    } else if k.code == KeyName::Char('n') {
        Command::DetailFindJump(1)
    } else if k.code == KeyName::Char('N') {
        Command::DetailFindJump((-1) as i32)
    } else if k.code == KeyName::Char('?') {
        Command::OpenHelp
    } else if k.code == KeyName::Char('v') {
        Command::ToggleVisual
    } else if k.code == KeyName::Enter {
        if ctx.detail_anchor { Command::YankSelection } else { Command::FollowLink }
    } else if k.code == KeyName::Char('m') {
        Command::ToggleSelected
    } else if k.code == KeyName::Char('S') {
        Command::OpenStatePicker
    } else if k.code == KeyName::Char('P') {
        Command::OpenPriorityPicker
    } else if k.code == KeyName::Char('T') {
        Command::OpenTypePicker
    } else if k.code == KeyName::Char('L') {
        Command::OpenLabels
    } else if k.code == KeyName::Char('X') {
        Command::OpenSlaughterConfirm
    } else if k.code == KeyName::Char('E') {
        Command::OpenEditAtCursor
    } else if k.code == KeyName::Char('D') {
        Command::OpenDepPicker
    } else if k.code == KeyName::Char('R') {
        Command::OpenReparentPicker
    } else if k.code == KeyName::Char('H') {
        Command::OpenHerdPicker
    } else if k.code == KeyName::Char('c') {
        Command::OpenCreate(false)
    } else if k.code == KeyName::Char('C') {
        Command::OpenCreate(true)
    } else if k.code == KeyName::Char('f') {
        Command::OpenDrawer
    } else if k.code == KeyName::Char('*') {
        Command::ToggleStar
    } else if k.code == KeyName::Char('y') {
        if ctx.detail_anchor { Command::YankSelection } else { Command::CopySelectedId }
    } else if k.code == KeyName::Char('M') {
        Command::OpenComment
    } else if k.code == KeyName::Char('A') {
        Command::OpenAttach
    } else if k.code == KeyName::Char('a') {
        Command::OpenAskOrAnswer
    } else if k.code == KeyName::Char('O') {
        Command::OpenCurrentExternal
    } else if k.code == KeyName::Char('J') {
        Command::DetailNextTask(1)
    } else if k.code == KeyName::Char('K') {
        Command::DetailNextTask((-1) as i32)
    } else if k.code == KeyName::Char('j') || k.code == KeyName::Down {
        Command::MoveDetailLine(1)
    } else if k.code == KeyName::Char('k') || k.code == KeyName::Up {
        Command::MoveDetailLine((-1) as i32)
    } else if k.code == KeyName::Char('d') {
        Command::MoveDetailLine(half)
    } else if k.code == KeyName::Char('u') {
        Command::MoveDetailLine((-half) as i32)
    } else if k.code == KeyName::Char('g') {
        Command::DetailLineTo(false)
    } else if k.code == KeyName::Char('G') {
        Command::DetailLineTo(true)
    } else {
        Command::Nothing
    }
}

/// The command for a key: the overlay's when one is open, quit on Ctrl-C,
/// else the focused pane's.
pub open spec fn key_command_spec(ctx: KeyContext, k: Key) -> Command {
    if ctx.overlay_open {
        Command::Overlay
    } else if k.ctrl && k.code == KeyName::Char('c') {
        Command::Quit
    } else {
        match ctx.focus {
            Focus::List => list_command(ctx, k),
            Focus::Detail => detail_command(ctx, k),
        }
    }
}

fn half_page_exec(page: u16) -> (r: i32)
    ensures
        r == half_page(page),
{
    if page / 2 >= 1 {
        (page / 2) as i32
    } else {
        1
    }
}

fn full_page_exec(page: u16) -> (r: i32)
    ensures
        r == full_page(page),
{
    if page >= 1 {
        page as i32
    } else {
        1
    }
}

fn list_command_exec(ctx: KeyContext, k: Key) -> (r: Command)
    ensures
        r == list_command(ctx, k),
{
    let half = half_page_exec(ctx.page);
    let full = full_page_exec(ctx.page);
    if k.code == KeyName::Char('q') {
        Command::Quit
    } else if k.code == KeyName::Char('j') || k.code == KeyName::Down {
        Command::MoveCursor(1)
    } else if k.code == KeyName::Char('k') || k.code == KeyName::Up {
        Command::MoveCursor((-1) as i32)
    } else if k.code == KeyName::Char('g') {
        Command::CursorTop
    } else if k.code == KeyName::Char('G') {
        Command::MoveCursor(536870911)
    } else if k.code == KeyName::Char('d') {
        Command::MoveCursor(half)
    } else if k.code == KeyName::Char('u') {
        Command::MoveCursor((-half) as i32)
    } else if k.code == KeyName::PageDown {
        Command::MoveCursor(full)
    } else if k.code == KeyName::PageUp {
        Command::MoveCursor((-full) as i32)
    } else if k.code == KeyName::Tab || k.code == KeyName::Char(']') {
        Command::SwitchTab(1)
    } else if k.code == KeyName::BackTab || k.code == KeyName::Char('[') {
        Command::SwitchTab((-1) as i32)
    } else if k.code == KeyName::Char(' ') {
        Command::ToggleCollapse
    } else if k.code == KeyName::Char('m') {
        Command::ToggleSelected
    } else if k.code == KeyName::Char('S') {
        if ctx.marked { Command::OpenBulkStatePicker } else { Command::OpenStatePicker }
    } else if k.code == KeyName::Char('P') {
        Command::OpenPriorityPicker
    } else if k.code == KeyName::Char('T') {
        Command::OpenTypePicker
    } else if k.code == KeyName::Char('X') {
        Command::OpenSlaughterConfirm
    } else if k.code == KeyName::Char('L') {
        Command::OpenLabels
    } else if k.code == KeyName::Char('c') {
        Command::OpenCreate(false)
    } else if k.code == KeyName::Char('C') {
        Command::OpenCreate(true)
    } else if k.code == KeyName::Char('E') {
        Command::OpenEdit
    } else if k.code == KeyName::Char('D') {
        Command::OpenDepPicker
    } else if k.code == KeyName::Char('R') {
        Command::OpenReparentPicker
    } else if k.code == KeyName::Char('H') {
        Command::OpenHerdPicker
    } else if k.code == KeyName::Char('/') {
        Command::OpenSearch
    } else if k.code == KeyName::Char('f') {
        Command::OpenDrawer
    } else if k.code == KeyName::Char('*') {
        Command::ToggleStar
    } else if k.code == KeyName::Char('y') {
        Command::CopySelectedId
    } else if k.code == KeyName::Char('M') {
        Command::OpenComment
    } else if k.code == KeyName::Char('A') {
        Command::OpenAttach
    } else if k.code == KeyName::Char('a') {
        Command::OpenAskOrAnswer
    } else if k.code == KeyName::Char('v') {
        Command::OpenViewPicker
    } else if k.code == KeyName::Char('V') {
        Command::OpenSaveView
    } else if k.code == KeyName::Char('?') {
        Command::OpenHelp
    } else if k.code == KeyName::Esc {
        if ctx.view_modified { Command::RevertToView } else { Command::Nothing }
    } else if k.code == KeyName::Char('h') {
        Command::CycleFamilyScope
    } else if k.code == KeyName::Char('l') || k.code == KeyName::Right || k.code == KeyName::Enter {
        if ctx.has_selected { Command::FocusDetail } else { Command::Nothing }
    } else {
        Command::Nothing
    }
}

fn detail_plain_exec(ctx: KeyContext, k: Key, half: i32) -> (r: Command)
    requires
        half >= 1,
    ensures
        r == detail_plain(ctx, k, half),
{
    if k.code == KeyName::Char('q') {
        Command::Quit
    } else if k.code == KeyName::Char('h') || k.code == KeyName::Left {
        Command::FocusList
    } else if k.code == KeyName::Esc {
        if ctx.detail_anchor { Command::ClearAnchor } else if ctx.detail_find { Command::ClearFind } else { Command::FocusList }
    } else if k.code == KeyName::Tab || k.code == KeyName::Char(']') {
        Command::JumpLink(1)
    } else if k.code == KeyName::BackTab || k.code == KeyName::Char('[') {
        Command::JumpLink((-1) as i32)
    } else if k.code == KeyName::Char('o') {
        Command::NavBack
    } else if k.code == KeyName::Char('i') {
        Command::NavForward
    } else if k.code == KeyName::Char('/') {
        Command::OpenDetailFind
    } else if k.code == KeyName::Char('n') {
        Command::DetailFindJump(1)
    } else if k.code == KeyName::Char('N') {
        Command::DetailFindJump((-1) as i32)
    } else if k.code == KeyName::Char('?') {
        Command::OpenHelp
    } else if k.code == KeyName::Char('v') {
        Command::ToggleVisual
    } else if k.code == KeyName::Enter {
        if ctx.detail_anchor { Command::YankSelection } else { Command::FollowLink }
    } else if k.code == KeyName::Char('m') {
        Command::ToggleSelected
    } else if k.code == KeyName::Char('S') {
        Command::OpenStatePicker
    } else if k.code == KeyName::Char('P') {
        Command::OpenPriorityPicker
    } else if k.code == KeyName::Char('T') {
        Command::OpenTypePicker
    } else if k.code == KeyName::Char('L') {
        Command::OpenLabels
    } else if k.code == KeyName::Char('X') {
        Command::OpenSlaughterConfirm
    } else if k.code == KeyName::Char('E') {
        Command::OpenEditAtCursor
    } else if k.code == KeyName::Char('D') {
        Command::OpenDepPicker
    } else if k.code == KeyName::Char('R') {
        Command::OpenReparentPicker
    } else if k.code == KeyName::Char('H') {
        Command::OpenHerdPicker
    } else if k.code == KeyName::Char('c') {
        Command::OpenCreate(false)
    } else if k.code == KeyName::Char('C') {
        Command::OpenCreate(true)
    } else if k.code == KeyName::Char('f') {
        Command::OpenDrawer
    } else if k.code == KeyName::Char('*') {
        Command::ToggleStar
    } else if k.code == KeyName::Char('y') {
        if ctx.detail_anchor { Command::YankSelection } else { Command::CopySelectedId }
    } else if k.code == KeyName::Char('M') {
        Command::OpenComment
    } else if k.code == KeyName::Char('A') {
        Command::OpenAttach
    } else if k.code == KeyName::Char('a') {
        Command::OpenAskOrAnswer
    } else if k.code == KeyName::Char('O') {
        Command::OpenCurrentExternal
    } else if k.code == KeyName::Char('J') {
        Command::DetailNextTask(1)
    } else if k.code == KeyName::Char('K') {
        Command::DetailNextTask((-1) as i32)
    } else if k.code == KeyName::Char('j') || k.code == KeyName::Down {
        Command::MoveDetailLine(1)
    } else if k.code == KeyName::Char('k') || k.code == KeyName::Up {
        Command::MoveDetailLine((-1) as i32)
    } else if k.code == KeyName::Char('d') {
        Command::MoveDetailLine(half)
    } else if k.code == KeyName::Char('u') {
        Command::MoveDetailLine((-half) as i32)
    } else if k.code == KeyName::Char('g') {
        Command::DetailLineTo(false)
    } else if k.code == KeyName::Char('G') {
        Command::DetailLineTo(true)
    } else {
        Command::Nothing
    }
}

/// Decide what a key does: forwarded to the open overlay, quit on Ctrl-C,
/// or the focused pane's command.
pub fn handle_key(ctx: KeyContext, k: Key) -> (r: Command)
    ensures
        r == key_command_spec(ctx, k),
{
    if ctx.overlay_open {
        return Command::Overlay;
    }
    if k.ctrl && k.code == KeyName::Char('c') {
        return Command::Quit;
    }
    match ctx.focus {
        Focus::List => list_command_exec(ctx, k),
        Focus::Detail => {
            let half = half_page_exec(ctx.page);
            if k.shift && (k.code == KeyName::Up || k.code == KeyName::Down) {
                return Command::ExtendSelection(if k.code == KeyName::Down { 1i32 } else { -1i32 });
            }
            if k.ctrl && (k.code == KeyName::Char('n') || k.code == KeyName::Char('p')) {
                return Command::JumpBlock(if k.code == KeyName::Char('n') { 1i32 } else { -1i32 });
            }
            detail_plain_exec(ctx, k, half)
        },
    }
}

} // verus!
