use yaks::actor::{clean, resolve_with};

#[test]
fn explicit_beats_env_beats_git() {
    let git = || Some("git-name".to_string());
    // Explicit wins.
    assert_eq!(resolve_with(Some("flag"), Some("env"), git), Some("flag".into()));
    // Empty/whitespace explicit falls through to env.
    assert_eq!(resolve_with(Some("  "), Some("env"), git), Some("env".into()));
    // No explicit, no env -> git.
    assert_eq!(resolve_with(None, None, git), Some("git-name".into()));
    // Nothing anywhere -> None (bare, unattributed note).
    assert_eq!(resolve_with(None, None, || None), None);
}

#[test]
fn blank_env_falls_through_to_git_and_values_are_trimmed() {
    assert_eq!(resolve_with(None, Some(" \t"), || Some("g".to_string())), Some("g".into()));
    assert_eq!(resolve_with(Some("  opus@joel \n"), None, || None), Some("opus@joel".into()));
    assert_eq!(clean("   "), None);
    assert_eq!(clean(" a b "), Some("a b".to_string()));
}

#[test]
fn git_is_not_asked_when_an_earlier_source_decides() {
    let r = resolve_with(Some("flag"), None, || -> Option<String> { panic!("git asked") });
    assert_eq!(r, Some("flag".into()));
}
