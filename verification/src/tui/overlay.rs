//! What a key does while an overlay is open (the `:` command line, a fuzzy
//! picker, the inline search, the detail find, an editor, a single-key
//! picker or a yes/no prompt): the action the app then carries out.
//! Keystrokes that edit a query or an editor's text are forwarded to the
//! editor by the app.

use vstd::prelude::*;
use crate::toque::KeyName;
use crate::tui::keys::Key;

verus! {

/// The open overlay.
#[derive(Debug, Clone, Copy, PartialEq, Eq, Structural)]
pub enum OverlayKind {
    Drawer,
    Create,
    Help,
    ViewPicker,
    Fuzzy,
    Search,
    DetailFind,
    Edit,
    Pick,
    Confirm,
    Closed,
}

/// What the overlay dispatch reads of the UI's state.
#[derive(Debug, Clone, Copy, PartialEq, Eq, Structural)]
pub struct OverlayContext {
    /// The `:` command line is open.
    pub cmdline: bool,
    pub kind: OverlayKind,
    /// An Esc now would be the second of a rapid pair.
    pub double_esc: bool,
    /// Embedded editors use vim keys.
    pub editor_vim: bool,
    /// The fuzzy picker's query is in Normal mode.
    pub query_normal: bool,
    /// The fuzzy picker was opened over an editor it returns to.
    pub fuzzy_returns: bool,
    pub fuzzy_sel: usize,
    /// The number of selectable fuzzy rows.
    pub fuzzy_total: usize,
    /// The open editor is a single-line field.
    pub edit_single_line: bool,
    /// The open editor uses vim keys.
    pub edit_vim: bool,
    /// The open editor is in Normal mode.
    pub edit_normal: bool,
    /// The cursor is in a reference the completer can finish.
    pub edit_completion: bool,
    /// The open editor holds only white space.
    pub edit_blank: bool,
    /// The prompt asks whether to discard an edit.
    pub confirm_discard: bool,
}

/// What the app does for a key in an overlay.
#[derive(Debug, Clone, Copy, PartialEq, Eq, Structural)]
pub enum OverlayAction {
    /// Hand the key to the command line.
    Cmdline,
    /// Hand the key (with whether it is a double Esc) to the drawer, the
    /// create form, the help or the view picker.
    Delegate,
    /// Close the fuzzy picker and return to the overlay it was opened over.
    FuzzyBack,
    /// Close the fuzzy picker, noting `cancelled`.
    FuzzyCancel,
    FuzzyCommit,
    /// Move the fuzzy selection to this row.
    FuzzySelect(usize),
    /// Forward the key to the query and select the top row.
    FuzzyEdit,
    /// Restore the pre-search filter and close.
    SearchCancel,
    /// Keep the live filter and close.
    SearchKeep,
    /// Forward the key to the search query and refilter.
    SearchEdit,
    /// Drop the find and restore the pre-find position.
    FindCancel,
    /// Keep the cursor on the current match and close.
    FindKeep,
    /// Forward the key to the find query and jump to the first match.
    FindEdit,
    EditCommit,
    /// Open the reference completer.
    EditComplete,
    /// Open the `:` command line.
    EditOpenCmdline,
    /// Cancel the editor, asking first when unsaved text would be lost.
    EditCancel(bool),
    /// Forward the key to the editor.
    EditForward,
    /// Close the picker, noting `cancelled`.
    PickCancel,
    /// Resolve the picker with this key.
    PickResolve(char),
    /// Keep the picker open.
    PickKeep,
    /// Carry out the confirmed action.
    ConfirmYes,
    /// Return to the stashed editor (a declined discard).
    ConfirmBackToEditor,
    /// Close, noting `cancelled`.
    ConfirmCancelled,
    /// Keep the prompt open.
    ConfirmKeep,
    Nothing,
}

pub open spec fn is_char(k: Key, c: char) -> bool {
    k.code == KeyName::Char(c)
}

/// Cancel in a text field: Ctrl-C, a double Esc, or (with emacs keys) Esc.
pub open spec fn field_cancel(ctx: OverlayContext, k: Key) -> bool {
    (k.ctrl && is_char(k, 'c')) || (k.code == KeyName::Esc && ctx.double_esc) || (k.code
        == KeyName::Esc && !ctx.editor_vim)
}

pub open spec fn fuzzy_spec(ctx: OverlayContext, k: Key) -> OverlayAction {
    let up = k.code == KeyName::Up || (k.ctrl && is_char(k, 'p')) || (ctx.query_normal && is_char(k, 'k'));
    let down = k.code == KeyName::Down || k.code == KeyName::Tab || (k.ctrl && is_char(k, 'n')) || (
    ctx.query_normal && is_char(k, 'j'));
    if field_cancel(ctx, k) || (ctx.query_normal && k.code == KeyName::Esc) {
        if ctx.fuzzy_returns {
            OverlayAction::FuzzyBack
        } else {
            OverlayAction::FuzzyCancel
        }
    } else if k.code == KeyName::Enter {
        OverlayAction::FuzzyCommit
    } else if up {
        OverlayAction::FuzzySelect(if ctx.fuzzy_sel > 0 { (ctx.fuzzy_sel - 1) as usize } else { 0 })
    } else if down {
        OverlayAction::FuzzySelect(if ctx.fuzzy_total > 0 {
            if ctx.fuzzy_sel + 1 <= ctx.fuzzy_total - 1 {
                (ctx.fuzzy_sel + 1) as usize
            } else {
                (ctx.fuzzy_total - 1) as usize
            }
        } else {
            ctx.fuzzy_sel
        })
    } else {
        OverlayAction::FuzzyEdit
    }
}

pub open spec fn edit_spec(ctx: OverlayContext, k: Key) -> OverlayAction {
    let commit = (k.ctrl && is_char(k, 's')) || (ctx.edit_single_line && k.code == KeyName::Enter);
    let open_cmd = !ctx.edit_single_line && ctx.edit_vim && is_char(k, ':') && ctx.edit_normal;
    let esc_cancels = ctx.edit_single_line && k.code == KeyName::Esc && !ctx.edit_vim;
    let cancel = (k.ctrl && is_char(k, 'c')) || esc_cancels || (k.code == KeyName::Esc && ctx.double_esc);
    if commit {
        OverlayAction::EditCommit
    } else if k.code == KeyName::Tab && ctx.edit_completion {
        OverlayAction::EditComplete
    } else if open_cmd {
        OverlayAction::EditOpenCmdline
    } else if cancel {
        OverlayAction::EditCancel(!ctx.edit_single_line && !ctx.edit_blank)
    } else {
        OverlayAction::EditForward
    }
}

pub open spec fn pick_spec(keys: Seq<char>, k: Key) -> OverlayAction {
    match k.code {
        KeyName::Esc => OverlayAction::PickCancel,
        KeyName::Char(c) => if keys.contains(c) {
            OverlayAction::PickResolve(c)
        } else {
            OverlayAction::PickKeep
        },
        _ => OverlayAction::PickKeep,
    }
}

pub open spec fn confirm_spec(ctx: OverlayContext, k: Key) -> OverlayAction {
    if is_char(k, 'y') || is_char(k, 'Y') {
        OverlayAction::ConfirmYes
    } else if is_char(k, 'n') || is_char(k, 'N') || k.code == KeyName::Esc || k.code == KeyName::Enter {
        if ctx.confirm_discard {
            OverlayAction::ConfirmBackToEditor
        } else {
            OverlayAction::ConfirmCancelled
        }
    } else {
        OverlayAction::ConfirmKeep
    }
}

/// The action for a key in the open overlay; `keys` are a single-key
/// picker's keys.
pub open spec fn overlay_spec(ctx: OverlayContext, keys: Seq<char>, k: Key) -> OverlayAction {
    if ctx.cmdline {
        OverlayAction::Cmdline
    } else {
        match ctx.kind {
            OverlayKind::Drawer | OverlayKind::Create | OverlayKind::Help | OverlayKind::ViewPicker => OverlayAction::Delegate,
            OverlayKind::Fuzzy => fuzzy_spec(ctx, k),
            OverlayKind::Search => if field_cancel(ctx, k) {
                OverlayAction::SearchCancel
            } else if k.code == KeyName::Enter {
                OverlayAction::SearchKeep
            } else {
                OverlayAction::SearchEdit
            },
            OverlayKind::DetailFind => if field_cancel(ctx, k) {
                OverlayAction::FindCancel
            } else if k.code == KeyName::Enter {
                OverlayAction::FindKeep
            } else {
                OverlayAction::FindEdit
            },
            OverlayKind::Edit => edit_spec(ctx, k),
            OverlayKind::Pick => pick_spec(keys, k),
            OverlayKind::Confirm => confirm_spec(ctx, k),
            OverlayKind::Closed => OverlayAction::Nothing,
        }
    }
}

fn is_char_exec(k: Key, c: char) -> (b: bool)
    ensures
        b == is_char(k, c),
{
    k.code == KeyName::Char(c)
}

fn field_cancel_exec(ctx: OverlayContext, k: Key) -> (b: bool)
    ensures
        b == field_cancel(ctx, k),
{
    (k.ctrl && is_char_exec(k, 'c')) || (k.code == KeyName::Esc && ctx.double_esc) || (k.code
        == KeyName::Esc && !ctx.editor_vim)
}

fn fuzzy_exec(ctx: OverlayContext, k: Key) -> (r: OverlayAction)
    ensures
        r == fuzzy_spec(ctx, k),
{
    let up = k.code == KeyName::Up || (k.ctrl && is_char_exec(k, 'p')) || (ctx.query_normal && is_char_exec(k, 'k'));
    let down = k.code == KeyName::Down || k.code == KeyName::Tab || (k.ctrl && is_char_exec(k, 'n')) || (
    ctx.query_normal && is_char_exec(k, 'j'));
    if field_cancel_exec(ctx, k) || (ctx.query_normal && k.code == KeyName::Esc) {
        if ctx.fuzzy_returns {
            OverlayAction::FuzzyBack
        } else {
            OverlayAction::FuzzyCancel
        }
    } else if k.code == KeyName::Enter {
        OverlayAction::FuzzyCommit
    } else if up {
        OverlayAction::FuzzySelect(if ctx.fuzzy_sel > 0 { ctx.fuzzy_sel - 1 } else { 0 })
    } else if down {
        OverlayAction::FuzzySelect(if ctx.fuzzy_total > 0 {
            if ctx.fuzzy_sel < ctx.fuzzy_total - 1 {
                ctx.fuzzy_sel + 1
            } else {
                ctx.fuzzy_total - 1
            }
        } else {
            ctx.fuzzy_sel
        })
    } else {
        OverlayAction::FuzzyEdit
    }
}

fn edit_exec(ctx: OverlayContext, k: Key) -> (r: OverlayAction)
    ensures
        r == edit_spec(ctx, k),
{
    let commit = (k.ctrl && is_char_exec(k, 's')) || (ctx.edit_single_line && k.code == KeyName::Enter);
    let open_cmd = !ctx.edit_single_line && ctx.edit_vim && is_char_exec(k, ':') && ctx.edit_normal;
    let esc_cancels = ctx.edit_single_line && k.code == KeyName::Esc && !ctx.edit_vim;
    let cancel = (k.ctrl && is_char_exec(k, 'c')) || esc_cancels || (k.code == KeyName::Esc && ctx.double_esc);
    if commit {
        OverlayAction::EditCommit
    } else if k.code == KeyName::Tab && ctx.edit_completion {
        OverlayAction::EditComplete
    } else if open_cmd {
        OverlayAction::EditOpenCmdline
    } else if cancel {
        OverlayAction::EditCancel(!ctx.edit_single_line && !ctx.edit_blank)
    } else {
        OverlayAction::EditForward
    }
}

fn has_key(keys: &str, c: char) -> (b: bool)
    ensures
        b == keys@.contains(c),
{
    let v = crate::text::chars_of(keys);
    let mut i: usize = 0;
    while i < v.len()
        invariant
            i <= v.len(),
            v@ == keys@,
            forall|j: int| 0 <= j < i ==> v@[j] != c,
        decreases v.len() - i,
    {
        if v[i] == c {
            return true;
        }
        i += 1;
    }
    false
}

fn confirm_exec(ctx: OverlayContext, k: Key) -> (r: OverlayAction)
    ensures
        r == confirm_spec(ctx, k),
{
    if is_char_exec(k, 'y') || is_char_exec(k, 'Y') {
        OverlayAction::ConfirmYes
    } else if is_char_exec(k, 'n') || is_char_exec(k, 'N') || k.code == KeyName::Esc || k.code == KeyName::Enter {
        if ctx.confirm_discard {
            OverlayAction::ConfirmBackToEditor
        } else {
            OverlayAction::ConfirmCancelled
        }
    } else {
        OverlayAction::ConfirmKeep
    }
}

/// Decide what a key does in the open overlay; `keys` are the keys a
/// single-key picker offers.
pub fn overlay_key(ctx: OverlayContext, keys: &str, k: Key) -> (r: OverlayAction)
    ensures
        r == overlay_spec(ctx, keys@, k),
{
    if ctx.cmdline {
        return OverlayAction::Cmdline;
    }
    match ctx.kind {
        OverlayKind::Drawer | OverlayKind::Create | OverlayKind::Help | OverlayKind::ViewPicker => OverlayAction::Delegate,
        OverlayKind::Fuzzy => fuzzy_exec(ctx, k),
        OverlayKind::Search => if field_cancel_exec(ctx, k) {
            OverlayAction::SearchCancel
        } else if k.code == KeyName::Enter {
            OverlayAction::SearchKeep
        } else {
            OverlayAction::SearchEdit
        },
        OverlayKind::DetailFind => if field_cancel_exec(ctx, k) {
            OverlayAction::FindCancel
        } else if k.code == KeyName::Enter {
            OverlayAction::FindKeep
        } else {
            OverlayAction::FindEdit
        },
        OverlayKind::Edit => edit_exec(ctx, k),
        OverlayKind::Pick => match k.code {
            KeyName::Esc => OverlayAction::PickCancel,
            KeyName::Char(c) => if has_key(keys, c) {
                OverlayAction::PickResolve(c)
            } else {
                OverlayAction::PickKeep
            },
            _ => OverlayAction::PickKeep,
        },
        OverlayKind::Confirm => confirm_exec(ctx, k),
        OverlayKind::Closed => OverlayAction::Nothing,
    }
}

} // verus!
