use chrono::{TimeZone, Utc};
use yaks::model::{Status, Task};
use yaks::store::layout::{schema_status, SchemaStatus};
use yaks::store::read::parse_task;
use yaks::store::time::parse_since;
use yaks::store::write::render;
use yaks::store::{append_note, parse_notes};

fn sample() -> Task {
    Task {
        id: "yaksrs-6b8c".into(),
        title: "Task model: full fields + serialize (round-trip)".into(),
        kind: "task".into(),
        priority: 2,
        status: Status::Shaving,
        created: Some("2026-08-19T00:00:00Z".into()),
        updated: Some("2026-08-19T01:00:00Z".into()),
        parent: Some("yaksrs-6e21".into()),
        labels: vec!["rust".into()],
        depends_on: vec!["yaksrs-aaaa".into(), "yaksrs-bbbb".into()],
        source: None,
        needs: None,
        verify: None,
        extra: Vec::new(),
        body: "First line.\n\n---\n\u{25b8} 2026-08-19T02:00:00Z\nA note with an apostrophe: don't panic.".into(),
    }
}

#[test]
fn parse_notes_splits_timestamped_blocks() {
    let body = append_note("Description.", "2026-01-01T00:00:00Z", None, "first note");
    let body = append_note(&body, "2026-01-02T00:00:00Z", None, "second\nspans lines");
    let notes = parse_notes(&body);
    assert_eq!(notes.len(), 2);
    assert_eq!(notes[0].ts, "2026-01-01T00:00:00Z");
    assert_eq!(notes[0].text, "first note");
    assert_eq!(notes[1].ts, "2026-01-02T00:00:00Z");
    assert_eq!(notes[1].text, "second\nspans lines");
    // Bare notes (no `--as`) carry no actor.
    assert_eq!(notes[0].actor, None);
    assert_eq!(notes[1].actor, None);
}

#[test]
fn append_note_round_trips_actor_and_stays_back_compatible() {
    // An actor is stamped as `[actor]` and parses back out...
    let with = append_note("", "2026-01-01T00:00:00Z", Some("opus@joel"), "did a thing");
    assert!(with.contains("\u{25b8} 2026-01-01T00:00:00Z [opus@joel]"));
    // ...alongside a bare note in the same body, which stays actor-less.
    let body = append_note(&with, "2026-01-02T00:00:00Z", None, "bare");
    let notes = parse_notes(&body);
    assert_eq!(notes[0].actor.as_deref(), Some("opus@joel"));
    assert_eq!(notes[0].ts, "2026-01-01T00:00:00Z");
    assert_eq!(notes[0].text, "did a thing");
    assert_eq!(notes[1].actor, None);
    assert_eq!(notes[1].ts, "2026-01-02T00:00:00Z");
    // An empty/whitespace actor writes the bare form (no empty `[]`).
    let blank = append_note("", "2026-01-03T00:00:00Z", Some("  "), "x");
    assert_eq!(parse_notes(&blank)[0].actor, None);
}

#[test]
fn parse_notes_ignores_prose_without_the_marker() {
    let body = "Just a description.\n\nWith a --- rule but no marker line.";
    assert!(parse_notes(body).is_empty());
}

fn at(y: i32, mo: u32, d: u32, h: u32, mi: u32, s: u32) -> (i64, u32) {
    let t = Utc.with_ymd_and_hms(y, mo, d, h, mi, s).unwrap();
    (t.timestamp(), t.timestamp_subsec_nanos())
}

#[test]
fn parse_since_relative_and_absolute() {
    let now = at(2026, 1, 10, 12, 0, 0);
    assert_eq!(parse_since("2h", now).unwrap(), at(2026, 1, 10, 10, 0, 0));
    assert_eq!(parse_since("3d", now).unwrap(), at(2026, 1, 7, 12, 0, 0));
    assert_eq!(parse_since("1w", now).unwrap(), at(2026, 1, 3, 12, 0, 0));
    assert_eq!(parse_since("2026-01-05", now).unwrap(), at(2026, 1, 5, 0, 0, 0));
    assert_eq!(parse_since("2026-01-05T06:30:00Z", now).unwrap(), at(2026, 1, 5, 6, 30, 0));
    assert!(parse_since("banana", now).is_err());
}

#[test]
fn parse_since_minutes_and_unknown_units() {
    let now = at(2026, 1, 10, 12, 0, 0);
    assert_eq!(parse_since("90m", now).unwrap(), at(2026, 1, 10, 10, 30, 0));
    assert!(parse_since("5y", now).is_err());
    assert!(parse_since("h", now).is_err());
}

#[test]
fn round_trip_preserves_all_fields() {
    let t = sample();
    let text = render(&t);
    let parsed = parse_task(&text, Status::Shaving).expect("should parse");
    assert_eq!(parsed, t);
}

#[test]
fn verify_field_round_trips() {
    let mut t = sample();
    // A ': ' and apostrophes force YAML quoting; the round-trip must be exact.
    t.verify = Some("cargo test -- --ignored && echo 'ok: done'".into());
    let text = render(&t);
    let parsed = parse_task(&text, Status::Shaving).expect("should parse");
    assert_eq!(parsed.verify, t.verify);
    assert_eq!(parsed, t);
}

#[test]
fn unknown_frontmatter_survives_a_round_trip() {
    // A farm written by a newer/other tool: fields this binary doesn't model,
    // both scalar and block-style, plus a real note. None may be dropped.
    let text = "---\n\
        id: yaksrs-9f0a\n\
        title: forward compat\n\
        type: task\n\
        priority: 3\n\
        assignee: alice\n\
        watchers:\n\
        - bob\n\
        - carol\n\
        ---\n\
        Body.\n";
    let parsed = parse_task(text, Status::Hairy).expect("should parse");
    // Unknown keys are captured verbatim, not lost.
    assert_eq!(parsed.extra, vec!["assignee: alice", "watchers:", "- bob", "- carol"]);
    // ...and a re-render keeps them (after the known fields) and re-parses equal.
    let rendered = render(&parsed);
    assert!(rendered.contains("assignee: alice"), "{rendered}");
    assert!(rendered.contains("watchers:\n- bob\n- carol\n"), "{rendered}");
    assert_eq!(parse_task(&rendered, Status::Hairy).unwrap(), parsed);
}

#[test]
fn timestamps_quoted_priority_plain_id_plain() {
    let text = render(&sample());
    assert!(text.contains("\ncreated: '2026-08-19T00:00:00Z'\n"), "{text}");
    assert!(text.contains("\npriority: 2\n"), "{text}");
    assert!(text.contains("\nid: yaksrs-6b8c\n"), "{text}");
    // Title has ": " so it must be single-quoted.
    assert!(text.contains("\ntitle: 'Task model: full fields"), "{text}");
    // Block list at column 0.
    assert!(text.contains("\ndepends_on:\n- yaksrs-aaaa\n- yaksrs-bbbb\n"), "{text}");
}

#[test]
fn quoting_escapes_apostrophes_and_round_trips() {
    // ": " forces single-quoting; the inner apostrophe must be doubled ('').
    let mut t = sample();
    t.title = "it's: a tricky one".into();
    let text = render(&t);
    assert!(text.contains("title: 'it''s: a tricky one'"), "{text}");
    let parsed = parse_task(&text, Status::Shaving).unwrap();
    assert_eq!(parsed.title, "it's: a tricky one");
}

#[test]
fn plain_when_safe() {
    // Punctuation that does NOT require quoting stays plain and round-trips.
    let mut t = sample();
    t.title = "don't \"stop\" now".into();
    let text = render(&t);
    assert!(text.contains("title: don't \"stop\" now\n"), "{text}");
    let parsed = parse_task(&text, Status::Shaving).unwrap();
    assert_eq!(parsed.title, "don't \"stop\" now");
}

#[test]
fn append_note_on_empty_body_has_no_leading_blank() {
    assert_eq!(
        append_note("", "2026-01-01T00:00:00Z", None, "hi"),
        "---\n\u{25b8} 2026-01-01T00:00:00Z\nhi"
    );
}

#[test]
fn append_note_separates_from_existing_body() {
    let out = append_note("Existing.\n", "2026-01-01T00:00:00Z", None, "second");
    assert_eq!(out, "Existing.\n\n---\n\u{25b8} 2026-01-01T00:00:00Z\nsecond");
}

#[test]
fn schema_gate() {
    assert_eq!(schema_status(Some("3")), SchemaStatus::Compatible);
    assert_eq!(schema_status(Some("4\n")), SchemaStatus::Newer(4));
    assert_eq!(schema_status(Some("2")), SchemaStatus::Older(2));
    assert_eq!(schema_status(None), SchemaStatus::Compatible);
    assert_eq!(schema_status(Some("garbage")), SchemaStatus::Compatible);
}

#[test]
fn a_file_without_frontmatter_or_id_does_not_parse() {
    assert!(parse_task("just text\n", Status::Hairy).is_none());
    assert!(parse_task("---\ntitle: no id\n---\n", Status::Hairy).is_none());
}

#[test]
fn appending_keeps_earlier_notes_and_adds_the_new_one_last() {
    // Trailing white space on the body is dropped before the new block.
    let body = append_note("Desc.", "2026-01-01T00:00:00Z", Some("ann"), "first\n\n");
    let before = parse_notes(&body);
    let after = parse_notes(&append_note(&format!("{body}  \n\n"), "2026-01-02T00:00:00Z", Some("  bob "), "  second  "));
    assert_eq!(after.len(), before.len() + 1);
    assert_eq!(after[..before.len()], before[..]);
    let last = &after[before.len()];
    assert_eq!(last.ts, "2026-01-02T00:00:00Z");
    assert_eq!(last.actor.as_deref(), Some("bob"));
    assert_eq!(last.text, "second");
    assert_eq!(before[0].text, "first");
}
