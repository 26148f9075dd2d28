use yaks::farm::merge::MergeOutcome;
use yaks::farm::{Change, Farm};
use yaks::model::{Status, Task};
use yaks::store::config::parse_config;
use yaks::store::herds::declare_herds;
use yaks::store::init::{init_config_text, schema_text, InitConfig};
use yaks::store::layout::{Discovered, SchemaStatus};

fn task(id: &str) -> Task {
    Task {
        id: id.into(),
        title: format!("title {id}"),
        kind: "task".into(),
        priority: 3,
        status: Status::Hairy,
        created: None,
        updated: None,
        parent: None,
        labels: vec![],
        depends_on: vec![],
        source: None,
        needs: None,
        verify: None,
        extra: Vec::new(),
        body: String::new(),
    }
}

fn farm_with(ids: &[&str], config_text: &str) -> Farm {
    let tasks: Vec<Task> = ids.iter().map(|i| task(i)).collect();
    let files: Vec<(String, Status)> = tasks.iter().map(|t| (t.id.clone(), t.status)).collect();
    let found = Discovered { root: "/tmp/dest/.yaks".into(), prefix: None };
    match Farm::open(found, SchemaStatus::Compatible, tasks, files, parse_config(config_text), config_text.to_string()) {
        Ok(f) => f,
        Err(_) => panic!("a compatible farm opens"),
    }
}

fn s(v: &[&str]) -> Vec<String> {
    v.iter().map(|x| x.to_string()).collect()
}

#[test]
fn merge_plans_a_disjoint_farm_and_declares_its_herds() {
    let mut farm = farm_with(&["core-0001"], "herd: core\n");
    let found = vec![
        ("web-0002".to_string(), Status::Shorn),
        ("web-0001".to_string(), Status::Hairy),
        ("api-0001".to_string(), Status::Dead),
    ];
    let arts = s(&["web-0001"]);
    match farm.merge("/tmp/src/.yaks", &found, &arts, true) {
        MergeOutcome::Done(p) => {
            assert!(!p.applied);
            assert_eq!(p.source, "/tmp/src/.yaks");
            let ids: Vec<&str> = p.yaks.iter().map(|(i, _)| i.as_str()).collect();
            assert_eq!(ids, vec!["api-0001", "web-0001", "web-0002"]);
            assert_eq!(p.yaks[2].1, Status::Shorn);
            assert_eq!(p.artifacts, s(&["web-0001"]));
            assert_eq!(p.herds, s(&["api", "web"]));
        }
        _ => panic!("expected a plan"),
    }
    assert!(farm.take_changes().is_empty());
    match farm.merge("/tmp/src/.yaks", &found, &arts, false) {
        MergeOutcome::Done(p) => {
            assert!(p.applied);
            assert_eq!(p.herds, s(&["api", "web"]));
        }
        _ => panic!("expected a plan"),
    }
    assert_eq!(farm.config_text, "herd: core\n\nherds:\n  api:\n  core:\n  web:\n");
    let changes = farm.take_changes();
    assert!(matches!(changes.last(), Some(Change::Config(_))));
}

#[test]
fn merge_refuses_colliding_ids() {
    let mut farm = farm_with(&["web-0001", "core-0001"], "");
    let found = vec![("web-0001".to_string(), Status::Hairy), ("web-0001".to_string(), Status::Dead)];
    match farm.merge("/tmp/src/.yaks", &found, &vec![], false) {
        MergeOutcome::Collision(ids) => assert_eq!(ids, s(&["web-0001"])),
        _ => panic!("expected a collision"),
    }
    assert!(farm.take_changes().is_empty());
}

#[test]
fn declare_herds_inserts_in_the_existing_block_and_is_idempotent() {
    let text = "herd: core\nherds:\n  core:\n    default_type: feature\n# trailing comment\nvim_mode: false\n";
    let (out, added) = declare_herds(text, &s(&["web", "core", "web"]), &vec![]);
    assert_eq!(added, s(&["web"]));
    assert_eq!(
        out,
        "herd: core\nherds:\n  core:\n    default_type: feature\n# trailing comment\n  web:\nvim_mode: false\n"
    );
    let (again, none) = declare_herds(&out, &s(&["web"]), &vec![]);
    assert!(none.is_empty());
    assert_eq!(again, out);
}

#[test]
fn declare_herds_seeds_a_fresh_block_with_the_known_herds() {
    let (out, added) = declare_herds("herd: core\n", &s(&["web"]), &s(&["old-0001", "core-0002", "plain"]));
    assert_eq!(added, s(&["web"]));
    assert_eq!(out, "herd: core\n\nherds:\n  core:\n  old:\n  web:\n");
}

#[test]
fn init_texts() {
    let cfg = InitConfig::default();
    assert_eq!(init_config_text(&cfg), "herd: yak\ndefault_type: task\ndefault_priority: 3\nvim_mode: true\n");
    let custom = InitConfig { prefix: "web".into(), default_type: "bug".into(), default_priority: 12, vim_mode: false };
    assert_eq!(init_config_text(&custom), "herd: web\ndefault_type: bug\ndefault_priority: 12\nvim_mode: false\n");
    assert_eq!(schema_text(), "3\n");
}

#[test]
fn merge_copies_a_disjoint_farm_preserving_status() {
    let mut dest = farm_with(&[], "herd: core\n");
    let found = vec![("proj-0001".to_string(), Status::Hairy), ("proj-0002".to_string(), Status::Shorn)];
    let plan = match dest.merge("/tmp/src/.yaks", &found, &vec![], false) {
        MergeOutcome::Done(p) => p,
        _ => panic!("expected Done"),
    };
    assert!(plan.applied && plan.yaks.len() == 2);
    // Each keeps its original status.
    assert_eq!(plan.yaks[0], ("proj-0001".to_string(), Status::Hairy));
    assert_eq!(plan.yaks[1], ("proj-0002".to_string(), Status::Shorn));
}

#[test]
fn merge_refuses_on_id_collision_and_writes_nothing() {
    let mut dest = farm_with(&["yak-0001"], "herd: yak\n");
    let found = vec![("yak-0001".to_string(), Status::Shaving), ("yak-0002".to_string(), Status::Hairy)];
    match dest.merge("/tmp/src/.yaks", &found, &vec![], false) {
        MergeOutcome::Collision(ids) => assert_eq!(ids, vec!["yak-0001".to_string()]),
        _ => panic!("expected Collision"),
    }
    // Refused wholesale: nothing is owed, the config is untouched.
    assert!(dest.take_changes().is_empty());
    assert_eq!(dest.config_text, "herd: yak\n");
}

#[test]
fn merge_dry_run_reports_but_writes_nothing() {
    let mut dest = farm_with(&[], "herd: core\n");
    let found = vec![("proj-0001".to_string(), Status::Hairy)];
    match dest.merge("/tmp/src/.yaks", &found, &vec![], true) {
        MergeOutcome::Done(p) => assert!(!p.applied && p.yaks.len() == 1),
        _ => panic!("expected Done"),
    }
    assert!(dest.take_changes().is_empty());
    assert_eq!(dest.config_text, "herd: core\n");
}

#[test]
fn merge_declares_the_incoming_herd_in_config() {
    let mut dest = farm_with(&[], "herd: core\n");
    let found = vec![("web-0001".to_string(), Status::Hairy)];
    let plan = match dest.merge("/tmp/src/.yaks", &found, &vec![], false) {
        MergeOutcome::Done(p) => p,
        _ => panic!("expected Done"),
    };
    assert_eq!(plan.herds, vec!["web".to_string()]);
    let cfg = parse_config(&dest.config_text);
    let known = cfg.known_herds();
    assert!(known.contains(&"web".to_string()), "incoming herd declared");
    assert!(known.contains(&cfg.prefix), "destination's own herd kept: {known:?}");
}

#[test]
fn merge_herd_declaration_is_idempotent_and_dry_run_writes_nothing() {
    let mut dest = farm_with(&[], "herd: core\n");
    let found = vec![("web-0001".to_string(), Status::Hairy)];
    let before = dest.config_text.clone();
    match dest.merge("/tmp/src/.yaks", &found, &vec![], true) {
        MergeOutcome::Done(p) => assert_eq!(p.herds, vec!["web".to_string()]),
        _ => panic!("expected Done"),
    }
    assert_eq!(before, dest.config_text, "dry run left config.yaml untouched");
    let _ = dest.merge("/tmp/src/.yaks", &found, &vec![], false);
    let (_, added) = declare_herds(&dest.config_text, &vec!["web".to_string()], &vec![]);
    assert!(added.is_empty(), "already-declared herd is skipped");
}
