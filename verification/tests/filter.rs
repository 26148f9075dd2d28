use yaks::filter::{apply, depends_on_transitively, FilterSpec};
use yaks::model::{Status, Task};

fn t(id: &str, status: Status, deps: &[&str], parent: Option<&str>) -> Task {
    Task {
        id: id.into(),
        title: format!("title {id}"),
        kind: "task".into(),
        priority: 3,
        status,
        created: None,
        updated: None,
        parent: parent.map(String::from),
        labels: vec![],
        depends_on: deps.iter().map(|s| s.to_string()).collect(),
        source: None,
        needs: None,
        verify: None,
        extra: Vec::new(),
        body: String::new(),
    }
}

fn herd() -> Vec<Task> {
    vec![
        t("a", Status::Shorn, &[], None),
        t("b", Status::Hairy, &["a"], None), // ready (dep a shorn)
        t("c", Status::Hairy, &["d"], None), // tangled (dep d hairy)
        t("d", Status::Hairy, &[], None),
        t("k", Status::Hairy, &[], Some("b")), // child of b
        t("z", Status::Dead, &[], None),
    ]
}

fn ids(v: Vec<&Task>) -> Vec<String> {
    let mut o: Vec<String> = v.into_iter().map(|t| t.id.clone()).collect();
    o.sort();
    o
}

fn s(x: &str) -> String {
    x.to_string()
}

#[test]
fn transitive_deps_detect_cycles() {
    // b -> a ; c -> d. b reaches a; c does not reach b.
    let h = herd();
    assert!(depends_on_transitively(&h, &s("b"), &s("a")));
    assert!(!depends_on_transitively(&h, &s("a"), &s("b")));
    assert!(!depends_on_transitively(&h, &s("c"), &s("b")));
    // Multi-hop: x -> y -> a.
    let chain = vec![
        t("x", Status::Hairy, &["y"], None),
        t("y", Status::Hairy, &["a"], None),
        t("a", Status::Hairy, &[], None),
    ];
    assert!(depends_on_transitively(&chain, &s("x"), &s("a")));
    assert!(!depends_on_transitively(&chain, &s("a"), &s("x")));
}

#[test]
fn ready_only_is_hairy_with_resolved_deps() {
    let h = herd();
    let spec = FilterSpec {
        statuses: vec![Status::Hairy],
        ready_only: true,
        ..Default::default()
    };
    assert_eq!(ids(apply(&h, &spec, false)), vec!["b", "d", "k"]);
}

#[test]
fn tangled_only_is_hairy_with_unresolved_deps() {
    let h = herd();
    let spec = FilterSpec {
        statuses: vec![Status::Hairy],
        tangled_only: true,
        ..Default::default()
    };
    assert_eq!(ids(apply(&h, &spec, false)), vec!["c"]);
}

#[test]
fn ready_only_excludes_a_needs_block() {
    let mut h = herd();
    let spec = FilterSpec {
        statuses: vec![Status::Hairy],
        ready_only: true,
        ..Default::default()
    };
    // "d" is ready (hairy, no unresolved deps). Blocking it on a human
    // (as `ask` does) drops it out of `next` without changing its status.
    h.iter_mut().find(|t| t.id == "d").unwrap().needs = Some("human".into());
    assert_eq!(ids(apply(&h, &spec, false)), vec!["b", "k"]);
    // Answering (clearing the block) returns it to ready.
    h.iter_mut().find(|t| t.id == "d").unwrap().needs = None;
    assert_eq!(ids(apply(&h, &spec, false)), vec!["b", "d", "k"]);
}

#[test]
fn default_scope_excludes_dead() {
    let h = herd();
    let got = ids(apply(&h, &FilterSpec::default(), false));
    assert!(!got.contains(&"z".to_string()));
    assert!(got.contains(&"a".to_string()));
}

#[test]
fn parent_of_scopes_to_descendants() {
    let h = herd();
    let spec = FilterSpec {
        parent: Some("b".into()),
        ..Default::default()
    };
    assert_eq!(ids(apply(&h, &spec, false)), vec!["k"]);
}

#[test]
fn search_is_case_insensitive_over_id_title_body() {
    let h = herd();
    let spec = FilterSpec {
        search: Some("TITLE C".into()),
        ..Default::default()
    };
    assert_eq!(ids(apply(&h, &spec, false)), vec!["c"]);
}

#[test]
fn include_dead_and_explicit_status_widen_the_scope() {
    let h = herd();
    let all = ids(apply(&h, &FilterSpec::default(), true));
    assert!(all.contains(&"z".to_string()));
    let dead = FilterSpec {
        statuses: vec![Status::Dead],
        ..Default::default()
    };
    assert_eq!(ids(apply(&h, &dead, false)), vec!["z"]);
}

#[test]
fn apply_keeps_the_input_order() {
    let h = herd();
    let got: Vec<String> = apply(&h, &FilterSpec::default(), false)
        .into_iter()
        .map(|t| t.id.clone())
        .collect();
    assert_eq!(got, vec!["a", "b", "c", "d", "k"]);
}
