use yaks::model::{Status, Task};
use yaks::rows::{fmt_plain_row, fmt_row};

fn task() -> Task {
    Task {
        id: "yak-0001".into(),
        title: "a title".into(),
        kind: "feature".into(),
        priority: 3,
        status: Status::Hairy,
        created: None,
        updated: None,
        parent: None,
        labels: vec![],
        depends_on: vec![],
        source: None,
        needs: None,
        verify: None,
        extra: vec![],
        body: String::new(),
    }
}

#[test]
fn fmt_row_marks_needs_blocked() {
    let mut t = task();
    t.needs = Some("human".into());
    let row = fmt_row(&t);
    // A blocked yak carries a visible, greppable marker naming who it needs.
    assert!(row.contains("\u{26a0} needs:human"), "row was: {row:?}");
}

#[test]
fn fmt_row_ready_has_no_needs_marker() {
    // A ready yak (needs == None) must stay distinguishable: no marker at all.
    let row = fmt_row(&task());
    assert!(!row.contains("needs:"), "row was: {row:?}");
    assert!(!row.contains('\u{26a0}'), "row was: {row:?}");
}

#[test]
fn fmt_row_lays_out_every_part() {
    let mut t = task();
    t.status = Status::Shorn;
    t.kind = "bug".into();
    t.labels = vec!["ui".into(), "docs".into()];
    t.depends_on = vec!["yak-0002".into(), "yak-0003".into()];
    assert_eq!(
        fmt_row(&t),
        "  [N] yak-0001  p3 bug      a title [ui,docs] (deps: yak-0002,yak-0003)"
    );
    assert_eq!(fmt_row(&task()), "  [H] yak-0001  p3 feature  a title");
}

#[test]
fn fmt_plain_row_has_no_glyph_and_a_long_type_is_not_cut() {
    let mut t = task();
    t.kind = "investigation".into();
    t.priority = 12;
    assert_eq!(fmt_plain_row(&t), "  yak-0001  p12 investigation a title");
}
