use yaks::model::{is_canonical_label, label_edit, normalize_labels, Status};

fn v(xs: &[&str]) -> Vec<String> {
    xs.iter().map(|s| s.to_string()).collect()
}

#[test]
fn normalize_splits_on_commas_and_whitespace() {
    for raw in ["foo, bar", "foo bar", "foo,bar", " foo ,, bar ,", "foo\tbar\n"] {
        assert_eq!(normalize_labels(&v(&[raw])), v(&["foo", "bar"]), "input {raw:?}");
    }
}

#[test]
fn normalize_flattens_many_args_and_dedupes_in_order() {
    assert_eq!(normalize_labels(&v(&["b,a", "a", "c b", ""])), v(&["b", "a", "c"]));
    assert!(normalize_labels(&v(&["", " , "])).is_empty());
    // Idempotent.
    let once = normalize_labels(&v(&["x, y z"]));
    assert_eq!(normalize_labels(&once), once);
}

#[test]
fn canonical_label_rejects_commas_and_spaces() {
    assert!(is_canonical_label("ui"));
    assert!(is_canonical_label("needs-review"));
    assert!(!is_canonical_label("ui,docs"));
    assert!(!is_canonical_label("bug ui"));
    assert!(!is_canonical_label(""));
}

#[test]
fn label_edit_diffs_against_normalized_current() {
    assert_eq!(label_edit(&v(&["a", "b"]), &v(&["a", "b"])), None);
    assert_eq!(label_edit(&v(&["a", "b"]), &v(&["b", "a"])), None);
    assert_eq!(
        label_edit(&v(&["a", "b"]), &v(&["a", "c"])),
        Some((v(&["c"]), v(&["b"])))
    );
    // Legacy `ui,docs` with an unchanged set: re-assert to canonicalize.
    assert_eq!(
        label_edit(&v(&["ui,docs"]), &v(&["ui", "docs"])),
        Some((v(&["ui", "docs"]), vec![]))
    );
    // Legacy label, dropping one half: remove the normalized piece.
    assert_eq!(
        label_edit(&v(&["ui,docs"]), &v(&["ui"])),
        Some((vec![], v(&["docs"])))
    );
}

#[test]
fn normalizing_an_already_normal_list_changes_nothing() {
    let once = normalize_labels(&v(&["b a,a", "c"]));
    assert_eq!(once, v(&["b", "a", "c"]));
    assert_eq!(normalize_labels(&once), once);
}

#[test]
fn status_names_glyphs_and_resolution() {
    assert_eq!(Status::Hairy.dir(), "hairy");
    assert_eq!(Status::Shaving.dir(), "shaving");
    assert_eq!(Status::Shorn.dir(), "shorn");
    assert_eq!(Status::Dead.dir(), "dead");
    assert_eq!(Status::Shorn.glyph(), 'N');
    assert_eq!(Status::Dead.emoji(), "\u{1f480}");
    assert!(Status::Shorn.is_resolved() && Status::Dead.is_resolved());
    assert!(!Status::Hairy.is_resolved() && !Status::Shaving.is_resolved());
}
