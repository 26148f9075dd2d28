use yaks::filter::FilterSpec;
use yaks::model::{Status, Task};
use yaks::rollup::{build, tracker_and_key};

#[test]
fn classify_trackers() {
    assert_eq!(
        tracker_and_key("https://x.atlassian.net/browse/SUBTEXT-369"),
        ("jira", Some("SUBTEXT-369".into()))
    );
    assert_eq!(
        tracker_and_key("https://linear.app/team/issue/roc-5/title"),
        ("linear", Some("ROC-5".into()))
    );
    assert_eq!(
        tracker_and_key("https://github.com/o/r/issues/123"),
        ("github", Some("o/r#123".into()))
    );
    assert_eq!(
        tracker_and_key("https://example.com/x"),
        ("other", Some("https://example.com/x".into()))
    );
    assert_eq!(tracker_and_key(""), ("none", None));
}

fn t(id: &str, parent: Option<&str>, source: Option<&str>) -> Task {
    Task {
        id: id.into(),
        title: id.into(),
        kind: "task".into(),
        priority: 3,
        status: Status::Hairy,
        created: None,
        updated: None,
        parent: parent.map(String::from),
        labels: vec![],
        depends_on: vec![],
        source: source.map(String::from),
        needs: None,
        verify: None,
        extra: Vec::new(),
        body: String::new(),
    }
}

#[test]
fn groups_with_ancestor_inheritance_and_unsourced() {
    let tasks = vec![
        t("umbrella", None, Some("https://github.com/o/r/issues/7")),
        t("child", Some("umbrella"), None),
        t("solo", None, Some("https://acme.atlassian.net/browse/AB-1")),
        t("orphan", None, None),
    ];
    let (groups, unsourced) = build(&tasks, &FilterSpec::default());
    assert_eq!(unsourced, 1);
    assert_eq!(groups[0].key.as_deref(), Some("AB-1"));
    assert_eq!(groups[0].tracker, "jira");
    assert_eq!(groups[1].key.as_deref(), Some("o/r#7"));
    let gh = &groups[1];
    assert_eq!(gh.yaks.len(), 2);
    assert_eq!(gh.yaks[0].task.id, "child");
    assert_eq!(gh.yaks[0].inherited_from.as_deref(), Some("umbrella"));
    assert_eq!(gh.yaks[1].task.id, "umbrella");
    assert_eq!(gh.yaks[1].inherited_from, None);
}

#[test]
fn a_grandchild_inherits_through_a_sourceless_parent() {
    let tasks = vec![
        t("top", None, Some("https://github.com/o/r/issues/9")),
        t("mid", Some("top"), None),
        t("leaf", Some("mid"), None),
    ];
    let (groups, unsourced) = build(&tasks, &FilterSpec::default());
    assert_eq!(unsourced, 0);
    assert_eq!(groups.len(), 1);
    assert_eq!(groups[0].head(), "o/r#9");
    let ids: Vec<&str> = groups[0].yaks.iter().map(|i| i.task.id.as_str()).collect();
    assert_eq!(ids, vec!["leaf", "mid", "top"]);
    assert_eq!(groups[0].yaks[0].inherited_from.as_deref(), Some("top"));
}
