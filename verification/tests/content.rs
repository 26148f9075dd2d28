use yaks::store::append_note;
use yaks::tui::content::{assemble, parse, Block, BlockKind};

fn desc(text: &str) -> Block {
    Block { kind: BlockKind::Description, text: text.into() }
}

fn comment(ts: &str, text: &str) -> Block {
    Block { kind: BlockKind::Comment { timestamp: ts.into() }, text: text.into() }
}

fn note(body: &str, ts: &str, text: &str) -> String {
    append_note(body, ts, None, text)
}

#[test]
fn empty_body_is_one_empty_description() {
    assert_eq!(parse(""), vec![desc("")]);
}

#[test]
fn plain_description_no_comments() {
    assert_eq!(
        parse("Just a description.\n\nMore."),
        vec![desc("Just a description.\n\nMore.")]
    );
}

#[test]
fn bare_rule_stays_in_description() {
    // A `---` not followed by a `▸` line is a horizontal rule, not a comment.
    let body = "intro\n\n---\n\nafter";
    assert_eq!(parse(body), vec![desc(body)]);
}

#[test]
fn splits_description_and_comments() {
    let body = note(
        &note("The description.", "2026-01-01T00:00:00Z", "first note"),
        "2026-01-02T00:00:00Z",
        "second note",
    );
    assert_eq!(
        parse(&body),
        vec![
            desc("The description."),
            comment("2026-01-01T00:00:00Z", "first note"),
            comment("2026-01-02T00:00:00Z", "second note"),
        ]
    );
}

#[test]
fn comment_only_body_has_empty_description() {
    let body = note("", "2026-01-01T00:00:00Z", "hi");
    assert_eq!(parse(&body), vec![desc(""), comment("2026-01-01T00:00:00Z", "hi")]);
}

#[test]
fn round_trips_append_note_bodies() {
    for body in [
        note("", "2026-01-01T00:00:00Z", "solo"),
        note("Desc.", "2026-01-01T00:00:00Z", "one"),
        note(
            &note("Multi\nline desc.", "2026-01-01T00:00:00Z", "a\nb"),
            "2026-01-02T00:00:00Z",
            "c",
        ),
    ] {
        assert_eq!(assemble(&parse(&body)), body, "round trip for:\n{body}");
    }
}

#[test]
fn assemble_drops_emptied_comment() {
    let blocks = vec![
        desc("keep"),
        comment("2026-01-01T00:00:00Z", "   "), // emptied, dropped
        comment("2026-01-02T00:00:00Z", "stays"),
    ];
    assert_eq!(assemble(&blocks), "keep\n\n---\n\u{25b8} 2026-01-02T00:00:00Z\nstays");
}

#[test]
fn assemble_of_an_empty_description_alone_is_empty() {
    assert_eq!(assemble(&vec![desc("  \n")]), "");
    assert_eq!(assemble(&vec![]), "");
}

#[test]
fn round_trips_bodies_with_actor_heads() {
    let body = append_note(
        &append_note("Desc.\n\n---\n\nrule above", "2026-01-01T00:00:00Z", Some("opus@joel"), "one\ntwo"),
        "2026-01-02T00:00:00Z",
        None,
        "three",
    );
    let blocks = parse(&body);
    assert_eq!(
        blocks,
        vec![
            desc("Desc.\n\n---\n\nrule above"),
            comment("2026-01-01T00:00:00Z [opus@joel]", "one\ntwo"),
            comment("2026-01-02T00:00:00Z", "three"),
        ]
    );
    assert_eq!(assemble(&blocks), body);
}
