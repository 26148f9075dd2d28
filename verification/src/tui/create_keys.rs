//! What a key does in the create/edit form: commit, cancel, move between
//! rows, move a chip, or hand the key to the focused field's editor.

use vstd::prelude::*;
use crate::toque::KeyName;
use crate::tui::keys::Key;

verus! {

/// What the form's key dispatch reads of the form.
#[derive(Debug, Clone, Copy, PartialEq, Eq, Structural)]
pub struct CreateContext {
    /// Embedded editors use vim keys.
    pub vim: bool,
    /// The focused row is a content block (description or comment).
    pub is_content: bool,
    /// The focused row is a single-line text field (title, labels).
    pub is_line_text: bool,
    /// The title is not empty.
    pub has_title: bool,
    /// The form edits an existing yak.
    pub editing: bool,
    /// The form holds unsaved changes.
    pub dirty: bool,
    /// An Esc now would be the second of a rapid pair.
    pub double_esc: bool,
    /// The focused single-line field is in Normal mode.
    pub line_normal: bool,
    /// The focused content block is in Normal mode.
    pub content_normal: bool,
    /// The cursor is in a reference the completer can finish.
    pub completion: bool,
    pub row: usize,
    pub row_count: usize,
}

/// What the app does for a key in the form.
#[derive(Debug, Clone, Copy, PartialEq, Eq, Structural)]
pub enum CreateAction {
    /// Commit the form (create, or save the edit).
    Commit,
    /// Cancel the form, asking first when `dirty`; the notice says
    /// `edit cancelled` when `editing`, else `create cancelled`.
    Cancel { dirty: bool, editing: bool },
    /// Focus this row; keep the single-line field in Normal mode when
    /// `carry_normal`.
    MoveRow { row: usize, carry_normal: bool },
    /// Open the `:` command line.
    OpenCmdline,
    /// Open the reference completer.
    OpenCompleter,
    /// Forward the key to the focused content block's editor.
    ToContent,
    /// Forward the key to the title's editor.
    ToTitle,
    /// Forward the key to the labels' editor.
    ToLabels,
    /// Move the focused chip row's choice.
    MoveChip(i32),
    Nothing,
}

pub open spec fn is_char(k: Key, c: char) -> bool {
    k.code == KeyName::Char(c)
}

/// The keys the field editor can take.
pub open spec fn editor_takes(code: KeyName) -> bool {
    match code {
        KeyName::Char(_) | KeyName::Enter | KeyName::Esc | KeyName::Backspace | KeyName::Delete
        | KeyName::Tab | KeyName::Left | KeyName::Right | KeyName::Up | KeyName::Down
        | KeyName::Home | KeyName::End | KeyName::PageUp | KeyName::PageDown => true,
        _ => false,
    }
}

pub open spec fn next_row(row: usize, n: usize) -> usize {
    if row + 1 >= n {
        0
    } else {
        (row + 1) as usize
    }
}

pub open spec fn prev_row(row: usize, n: usize) -> usize {
    if row == 0 {
        (n - 1) as usize
    } else {
        (row - 1) as usize
    }
}

/// The form's action for `k` (rows wrap around).
pub open spec fn create_spec(ctx: CreateContext, k: Key) -> CreateAction {
    let is_chip = !ctx.is_content && !ctx.is_line_text;
    let line_normal = ctx.is_line_text && ctx.line_normal;
    let nav_down = (k.code == KeyName::Tab && !ctx.is_content) || (k.ctrl && is_char(k, 'n'))
        || (ctx.is_line_text && k.code == KeyName::Down) || (line_normal && is_char(k, 'j'))
        || (is_chip && (k.code == KeyName::Down || is_char(k, 'j')));
    let nav_up = k.code == KeyName::BackTab || (k.ctrl && is_char(k, 'p')) || (ctx.is_line_text
        && k.code == KeyName::Up) || (line_normal && is_char(k, 'k')) || (is_chip && (k.code
        == KeyName::Up || is_char(k, 'k')));
    if k.ctrl && is_char(k, 's') {
        if ctx.has_title {
            CreateAction::Commit
        } else {
            CreateAction::Nothing
        }
    } else if (k.ctrl && is_char(k, 'c')) || ctx.double_esc || (k.code == KeyName::Esc && !ctx.vim
        && !ctx.is_content) {
        CreateAction::Cancel { dirty: ctx.dirty, editing: ctx.editing }
    } else if nav_down || nav_up {
        CreateAction::MoveRow {
            row: if nav_down {
                next_row(ctx.row, ctx.row_count)
            } else {
                prev_row(ctx.row, ctx.row_count)
            },
            carry_normal: line_normal && (is_char(k, 'j') || is_char(k, 'k')),
        }
    } else if k.code == KeyName::Enter && !ctx.is_content {
        CreateAction::MoveRow { row: next_row(ctx.row, ctx.row_count), carry_normal: false }
    } else if ctx.is_content {
        if ctx.vim && is_char(k, ':') && ctx.content_normal {
            CreateAction::OpenCmdline
        } else if k.code == KeyName::Tab && ctx.completion {
            CreateAction::OpenCompleter
        } else if editor_takes(k.code) {
            CreateAction::ToContent
        } else {
            CreateAction::Nothing
        }
    } else if ctx.is_line_text {
        if editor_takes(k.code) && ctx.row == 0 {
            CreateAction::ToTitle
        } else if editor_takes(k.code) && ctx.row == 3 {
            CreateAction::ToLabels
        } else {
            CreateAction::Nothing
        }
    } else if k.code == KeyName::Left || is_char(k, 'h') {
        CreateAction::MoveChip(-1i32)
    } else if k.code == KeyName::Right || is_char(k, 'l') {
        CreateAction::MoveChip(1i32)
    } else {
        CreateAction::Nothing
    }
}

fn is_char_exec(k: Key, c: char) -> (b: bool)
    ensures
        b == is_char(k, c),
{
    k.code == KeyName::Char(c)
}

fn editor_takes_exec(code: KeyName) -> (b: bool)
    ensures
        b == editor_takes(code),
{
    match code {
        KeyName::Char(_) | KeyName::Enter | KeyName::Esc | KeyName::Backspace | KeyName::Delete
        | KeyName::Tab | KeyName::Left | KeyName::Right | KeyName::Up | KeyName::Down
        | KeyName::Home | KeyName::End | KeyName::PageUp | KeyName::PageDown => true,
        _ => false,
    }
}

/// Decide what a key does in the form.
pub fn create_key(ctx: CreateContext, k: Key) -> (r: CreateAction)
    requires
        ctx.row < ctx.row_count,
    ensures
        r == create_spec(ctx, k),
{
    let is_chip = !ctx.is_content && !ctx.is_line_text;
    let line_normal = ctx.is_line_text && ctx.line_normal;
    let nav_down = (k.code == KeyName::Tab && !ctx.is_content) || (k.ctrl && is_char_exec(k, 'n'))
        || (ctx.is_line_text && k.code == KeyName::Down) || (line_normal && is_char_exec(k, 'j'))
        || (is_chip && (k.code == KeyName::Down || is_char_exec(k, 'j')));
    let nav_up = k.code == KeyName::BackTab || (k.ctrl && is_char_exec(k, 'p')) || (ctx.is_line_text
        && k.code == KeyName::Up) || (line_normal && is_char_exec(k, 'k')) || (is_chip && (k.code
        == KeyName::Up || is_char_exec(k, 'k')));
    let next = if ctx.row + 1 >= ctx.row_count { 0 } else { ctx.row + 1 };
    let prev = if ctx.row == 0 { ctx.row_count - 1 } else { ctx.row - 1 };
    if k.ctrl && is_char_exec(k, 's') {
        if ctx.has_title {
            CreateAction::Commit
        } else {
            CreateAction::Nothing
        }
    } else if (k.ctrl && is_char_exec(k, 'c')) || ctx.double_esc || (k.code == KeyName::Esc && !ctx.vim
        && !ctx.is_content) {
        CreateAction::Cancel { dirty: ctx.dirty, editing: ctx.editing }
    } else if nav_down || nav_up {
        CreateAction::MoveRow {
            row: if nav_down { next } else { prev },
            carry_normal: line_normal && (is_char_exec(k, 'j') || is_char_exec(k, 'k')),
        }
    } else if k.code == KeyName::Enter && !ctx.is_content {
        CreateAction::MoveRow { row: next, carry_normal: false }
    } else if ctx.is_content {
        if ctx.vim && is_char_exec(k, ':') && ctx.content_normal {
            CreateAction::OpenCmdline
        } else if k.code == KeyName::Tab && ctx.completion {
            CreateAction::OpenCompleter
        } else if editor_takes_exec(k.code) {
            CreateAction::ToContent
        } else {
            CreateAction::Nothing
        }
    } else if ctx.is_line_text {
        if editor_takes_exec(k.code) && ctx.row == 0 {
            CreateAction::ToTitle
        } else if editor_takes_exec(k.code) && ctx.row == 3 {
            CreateAction::ToLabels
        } else {
            CreateAction::Nothing
        }
    } else if k.code == KeyName::Left || is_char_exec(k, 'h') {
        CreateAction::MoveChip(-1i32)
    } else if k.code == KeyName::Right || is_char_exec(k, 'l') {
        CreateAction::MoveChip(1i32)
    } else {
        CreateAction::Nothing
    }
}

} // verus!
