use yaks::model::{Status, Task};
use yaks::tui::detail::{build, humanize_date, jumplist, parse_image_link, Kind, Target};

fn task(id: &str, parent: Option<&str>, deps: &[&str], body: &str) -> Task {
    Task {
        id: id.into(),
        title: format!("title {id}"),
        kind: "task".into(),
        priority: 3,
        status: Status::Hairy,
        created: None,
        updated: None,
        parent: parent.map(String::from),
        labels: vec![],
        depends_on: deps.iter().map(|s| s.to_string()).collect(),
        source: None,
        needs: None,
        verify: None,
        extra: vec![],
        body: body.into(),
    }
}

#[test]
fn header_fields_and_reverse_deps() {
    let mut a = task("yak-0001", None, &[], "");
    a.created = Some("2025-12-31T19:00:00Z".into());
    let mut b = task("yak-0002", None, &["yak-0001"], ""); // 0002 depends on 0001
    b.created = Some("2025-12-31T19:00:00Z".into());
    let all = vec![a, b];
    let lines = build(&all[0], &all);
    let text: Vec<&str> = lines.iter().map(|l| l.text.as_str()).collect();
    assert_eq!(text[0], "Task: yak-0001");
    assert!(text.iter().any(|l| l.starts_with("Status:")));
    assert!(text
        .iter()
        .any(|l| l.starts_with("Created:") && l.contains("Dec 31, 2025 19:00")));
    assert!(text.iter().any(|l| *l == "Blocks:"));
    let jumps = jumplist(&lines);
    assert!(jumps.iter().any(|j| j.target == Target::Task("yak-0002".into())));
}

#[test]
fn humanize_date_formats_iso() {
    assert_eq!(humanize_date("2025-12-31T19:00:00Z"), "Dec 31, 2025 19:00");
    assert_eq!(humanize_date("not-a-date"), "not-a-date");
}

#[test]
fn links_parent_deps_children_and_body_refs() {
    let all = vec![
        task("yak-0001", None, &["yak-0002"], "see yak-0003 and [[yak-0002]] here"),
        task("yak-0002", None, &[], ""),
        task("yak-0003", Some("yak-0001"), &[], ""), // child of 0001
    ];
    let lines = build(&all[0], &all);
    let jumps = jumplist(&lines);
    let targets: Vec<Target> = jumps.iter().map(|j| j.target.clone()).collect();
    // parent: none; dep yak-0002; child yak-0003; body refs yak-0003, yak-0002.
    assert_eq!(
        targets,
        vec![
            Target::Task("yak-0002".into()), // depends on
            Target::Task("yak-0003".into()), // children
            Target::Task("yak-0003".into()), // body ref
            Target::Task("yak-0002".into()), // body ref (brackets stripped)
        ]
    );
}

#[test]
fn body_link_span_points_at_the_id() {
    let all = vec![task("yak-0001", None, &[], "x yak-0001 y")];
    // self-id still scans in body (resolution is the caller's concern here).
    let lines = build(&all[0], &all);
    let body = lines.last().unwrap();
    assert_eq!(body.text, "x yak-0001 y");
    assert_eq!(body.links.len(), 1);
    let (col, len, _) = &body.links[0];
    let slice: String = body.text.chars().skip(*col).take(*len).collect();
    assert_eq!(slice, "yak-0001");
}

#[test]
fn url_in_body_is_a_link() {
    let all = vec![task("yak-0001", None, &[], "docs at https://example.com/x ok")];
    let lines = build(&all[0], &all);
    let jumps = jumplist(&lines);
    assert_eq!(
        jumps.iter().map(|j| j.target.clone()).collect::<Vec<_>>(),
        vec![Target::Url("https://example.com/x".into())]
    );
}

#[test]
fn missing_dependency_is_shown_without_a_link() {
    let all = vec![task("yak-0001", None, &["yak-9999"], "")];
    let lines = build(&all[0], &all);
    assert!(lines.iter().any(|l| l.text == "    yak-9999  (missing)" && l.links.is_empty()));
    assert!(jumplist(&lines).is_empty());
}

#[test]
fn header_layout_is_exact() {
    let mut t = task("yak-0001", None, &[], "");
    t.labels = vec!["ui".into(), "docs".into()];
    t.priority = 1;
    let all = vec![t];
    let lines = build(&all[0], &all);
    let text: Vec<&str> = lines.iter().map(|l| l.text.as_str()).collect();
    assert_eq!(
        text,
        vec![
            "Task: yak-0001",
            "",
            "Title:       title yak-0001",
            "Status:      hairy",
            "Type:        task",
            "Priority:    p1",
            "Created:     -",
            "Updated:     -",
            "Labels:      ui, docs",
        ]
    );
    assert!(lines[0].kind == Kind::Section && lines[1].kind == Kind::Empty && lines[2].kind == Kind::Field);
}

#[test]
fn children_and_dependents_are_listed_by_id() {
    let all = vec![
        task("yak-0001", None, &[], ""),
        task("yak-0009", Some("yak-0001"), &["yak-0001"], ""),
        task("yak-0004", Some("yak-0001"), &["yak-0001"], ""),
    ];
    let lines = build(&all[0], &all);
    let targets: Vec<Target> = jumplist(&lines).into_iter().map(|j| j.target).collect();
    assert_eq!(
        targets,
        vec![
            Target::Task("yak-0004".into()),
            Target::Task("yak-0009".into()),
            Target::Task("yak-0004".into()),
            Target::Task("yak-0009".into()),
        ]
    );
}

#[test]
fn source_url_and_image_links() {
    let mut t = task("yak-0001", None, &[], "shot: ![login](assets/yak-0001/login.png) done");
    t.source = Some("https://github.com/o/r/issues/1".into());
    let all = vec![t];
    let lines = build(&all[0], &all);
    let src = lines.iter().find(|l| l.text.starts_with("Source:")).unwrap();
    assert_eq!(src.text, "Source:      https://github.com/o/r/issues/1");
    assert_eq!(src.links, vec![(13, 31, Target::Url("https://github.com/o/r/issues/1".into()))]);
    let body = lines.last().unwrap();
    assert_eq!(body.links, vec![(6, 35, Target::Artifact("assets/yak-0001/login.png".into()))]);
    let chars: Vec<char> = "![a](b)".chars().collect();
    assert_eq!(parse_image_link(&chars, 0), Some((7, "b".to_string())));
    let broken: Vec<char> = "![a] (b)".chars().collect();
    assert_eq!(parse_image_link(&broken, 0), None);
}
