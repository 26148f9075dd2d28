use yaks::toque::KeyName;
use yaks::tui::create_keys::{create_key, CreateAction, CreateContext};
use yaks::tui::keys::{handle_key, Command, Focus, Key, KeyContext};
use yaks::tui::overlay::{overlay_key, OverlayAction, OverlayContext, OverlayKind};

fn key(code: KeyName) -> Key {
    Key { code, ctrl: false, shift: false }
}

fn ch(c: char) -> Key {
    key(KeyName::Char(c))
}

fn ctrl(c: char) -> Key {
    Key { code: KeyName::Char(c), ctrl: true, shift: false }
}

fn list_ctx() -> KeyContext {
    KeyContext {
        overlay_open: false,
        focus: Focus::List,
        marked: false,
        has_selected: true,
        detail_anchor: false,
        detail_find: false,
        view_modified: false,
        page: 20,
    }
}

#[test]
fn list_keys_move_open_and_quit() {
    let c = list_ctx();
    assert_eq!(handle_key(c, ch('j')), Command::MoveCursor(1));
    assert_eq!(handle_key(c, key(KeyName::Up)), Command::MoveCursor(-1));
    assert_eq!(handle_key(c, ch('d')), Command::MoveCursor(10));
    assert_eq!(handle_key(c, key(KeyName::PageUp)), Command::MoveCursor(-20));
    assert_eq!(handle_key(KeyContext { page: 1, ..c }, ch('u')), Command::MoveCursor(-1));
    assert_eq!(handle_key(c, ch('S')), Command::OpenStatePicker);
    assert_eq!(handle_key(KeyContext { marked: true, ..c }, ch('S')), Command::OpenBulkStatePicker);
    assert_eq!(handle_key(c, key(KeyName::Enter)), Command::FocusDetail);
    assert_eq!(handle_key(KeyContext { has_selected: false, ..c }, key(KeyName::Enter)), Command::Nothing);
    assert_eq!(handle_key(c, key(KeyName::Esc)), Command::Nothing);
    assert_eq!(handle_key(KeyContext { view_modified: true, ..c }, key(KeyName::Esc)), Command::RevertToView);
    assert_eq!(handle_key(c, ctrl('c')), Command::Quit);
    assert_eq!(handle_key(KeyContext { overlay_open: true, ..c }, ctrl('c')), Command::Overlay);
    assert_eq!(handle_key(c, ch('Z')), Command::Nothing);
}

#[test]
fn detail_keys_peel_back_and_select() {
    let c = KeyContext { focus: Focus::Detail, ..list_ctx() };
    assert_eq!(handle_key(KeyContext { detail_anchor: true, detail_find: true, ..c }, key(KeyName::Esc)), Command::ClearAnchor);
    assert_eq!(handle_key(KeyContext { detail_find: true, ..c }, key(KeyName::Esc)), Command::ClearFind);
    assert_eq!(handle_key(c, key(KeyName::Esc)), Command::FocusList);
    assert_eq!(handle_key(c, Key { code: KeyName::Down, ctrl: false, shift: true }), Command::ExtendSelection(1));
    assert_eq!(handle_key(c, ctrl('p')), Command::JumpBlock(-1));
    assert_eq!(handle_key(c, ch('y')), Command::CopySelectedId);
    assert_eq!(handle_key(KeyContext { detail_anchor: true, ..c }, key(KeyName::Enter)), Command::YankSelection);
    assert_eq!(handle_key(c, key(KeyName::Enter)), Command::FollowLink);
    assert_eq!(handle_key(c, ch('G')), Command::DetailLineTo(true));
}

fn ov(kind: OverlayKind) -> OverlayContext {
    OverlayContext {
        cmdline: false,
        kind,
        double_esc: false,
        editor_vim: true,
        query_normal: false,
        fuzzy_returns: false,
        fuzzy_sel: 2,
        fuzzy_total: 3,
        edit_single_line: false,
        edit_vim: true,
        edit_normal: false,
        edit_completion: false,
        edit_blank: false,
        confirm_discard: false,
    }
}

#[test]
fn overlay_pickers_prompts_and_fuzzy() {
    assert_eq!(overlay_key(ov(OverlayKind::Pick), "hsnx", ch('n')), OverlayAction::PickResolve('n'));
    assert_eq!(overlay_key(ov(OverlayKind::Pick), "hsnx", ch('q')), OverlayAction::PickKeep);
    assert_eq!(overlay_key(ov(OverlayKind::Pick), "hsnx", key(KeyName::Esc)), OverlayAction::PickCancel);
    assert_eq!(overlay_key(ov(OverlayKind::Confirm), "", ch('Y')), OverlayAction::ConfirmYes);
    assert_eq!(overlay_key(ov(OverlayKind::Confirm), "", key(KeyName::Enter)), OverlayAction::ConfirmCancelled);
    assert_eq!(
        overlay_key(OverlayContext { confirm_discard: true, ..ov(OverlayKind::Confirm) }, "", ch('n')),
        OverlayAction::ConfirmBackToEditor
    );
    assert_eq!(overlay_key(ov(OverlayKind::Fuzzy), "", key(KeyName::Down)), OverlayAction::FuzzySelect(2));
    assert_eq!(overlay_key(ov(OverlayKind::Fuzzy), "", key(KeyName::Up)), OverlayAction::FuzzySelect(1));
    assert_eq!(overlay_key(ov(OverlayKind::Fuzzy), "", ch('k')), OverlayAction::FuzzyEdit);
    assert_eq!(overlay_key(OverlayContext { query_normal: true, ..ov(OverlayKind::Fuzzy) }, "", key(KeyName::Esc)), OverlayAction::FuzzyCancel);
    assert_eq!(overlay_key(OverlayContext { cmdline: true, ..ov(OverlayKind::Fuzzy) }, "", ch('x')), OverlayAction::Cmdline);
    assert_eq!(overlay_key(ov(OverlayKind::Search), "", key(KeyName::Enter)), OverlayAction::SearchKeep);
    assert_eq!(overlay_key(ov(OverlayKind::Search), "", key(KeyName::Esc)), OverlayAction::SearchEdit);
}

#[test]
fn overlay_editor_commits_cancels_and_forwards() {
    let e = ov(OverlayKind::Edit);
    assert_eq!(overlay_key(e, "", ctrl('s')), OverlayAction::EditCommit);
    assert_eq!(overlay_key(e, "", ctrl('c')), OverlayAction::EditCancel(true));
    assert_eq!(overlay_key(OverlayContext { edit_blank: true, ..e }, "", ctrl('c')), OverlayAction::EditCancel(false));
    assert_eq!(overlay_key(e, "", key(KeyName::Esc)), OverlayAction::EditForward);
    assert_eq!(overlay_key(OverlayContext { edit_normal: true, ..e }, "", ch(':')), OverlayAction::EditOpenCmdline);
    assert_eq!(overlay_key(OverlayContext { edit_completion: true, ..e }, "", key(KeyName::Tab)), OverlayAction::EditComplete);
}

fn form() -> CreateContext {
    CreateContext {
        vim: false,
        is_content: false,
        is_line_text: true,
        has_title: true,
        editing: false,
        dirty: true,
        double_esc: false,
        line_normal: false,
        content_normal: false,
        completion: false,
        row: 0,
        row_count: 5,
    }
}

#[test]
fn form_keys_commit_cancel_and_wrap_rows() {
    let f = form();
    assert_eq!(create_key(f, ctrl('s')), CreateAction::Commit);
    assert_eq!(create_key(CreateContext { has_title: false, ..f }, ctrl('s')), CreateAction::Nothing);
    assert_eq!(create_key(f, key(KeyName::Esc)), CreateAction::Cancel { dirty: true, editing: false });
    assert_eq!(create_key(f, key(KeyName::BackTab)), CreateAction::MoveRow { row: 4, carry_normal: false });
    assert_eq!(create_key(CreateContext { row: 4, ..f }, key(KeyName::Enter)), CreateAction::MoveRow { row: 0, carry_normal: false });
    assert_eq!(create_key(CreateContext { line_normal: true, ..f }, ch('j')), CreateAction::MoveRow { row: 1, carry_normal: true });
    assert_eq!(create_key(f, ch('x')), CreateAction::ToTitle);
    assert_eq!(create_key(CreateContext { row: 3, ..f }, ch('x')), CreateAction::ToLabels);
    let chip = CreateContext { is_line_text: false, row: 1, ..f };
    assert_eq!(create_key(chip, ch('l')), CreateAction::MoveChip(1));
    assert_eq!(create_key(chip, ch('k')), CreateAction::MoveRow { row: 0, carry_normal: false });
    let body = CreateContext { is_line_text: false, is_content: true, vim: true, row: 4, ..f };
    assert_eq!(create_key(body, key(KeyName::Esc)), CreateAction::ToContent);
    assert_eq!(create_key(body, key(KeyName::BackTab)), CreateAction::MoveRow { row: 3, carry_normal: false });
    assert_eq!(create_key(CreateContext { content_normal: true, ..body }, ch(':')), CreateAction::OpenCmdline);
    assert_eq!(create_key(body, key(KeyName::Null)), CreateAction::Nothing);
}
