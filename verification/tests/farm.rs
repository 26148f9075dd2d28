use yaks::farm::names::attachment_name;
use yaks::farm::rename::{RenameOutcome, RenamePlan};
use yaks::farm::{Change, Farm};
use yaks::model::{Status, Task};
use yaks::store::config::parse_config;
use yaks::farm::family::live_descendants;
use yaks::filter::FilterSpec;
use yaks::farm::create::{CreateOutcome, NewTask};
use yaks::farm::family::SlaughterOutcome;
use yaks::farm::health::IssueKind;
use yaks::farm::links::RefKind;
use yaks::store::append_note;
use yaks::store::layout::{DepOutcome, Discovered, MoveOutcome, Reparent, SchemaStatus};

fn task(id: &str, status: Status) -> Task {
    Task {
        id: id.into(),
        title: format!("title {id}"),
        kind: "task".into(),
        priority: 3,
        status,
        created: Some("2026-01-01T00:00:00Z".into()),
        updated: Some("2026-01-01T00:00:00Z".into()),
        parent: None,
        labels: vec![],
        depends_on: vec![],
        source: None,
        needs: None,
        verify: None,
        extra: Vec::new(),
        body: String::new(),
    }
}

/// A farm holding `tasks`, one file each, with no `config.yaml`.
fn farm_of(tasks: Vec<Task>) -> Farm {
    let files: Vec<(String, Status)> = tasks.iter().map(|t| (t.id.clone(), t.status)).collect();
    let found = Discovered { root: "/tmp/farm/.yaks".into(), prefix: None };
    match Farm::open(found, SchemaStatus::Compatible, tasks, files, parse_config(""), String::new()) {
        Ok(f) => f,
        Err(_) => panic!("a compatible farm opens"),
    }
}

fn has_file(farm: &Farm, id: &str, st: Status) -> bool {
    farm.files.iter().any(|(i, s)| i == id && *s == st)
}

fn get<'a>(farm: &'a Farm, id: &str) -> &'a Task {
    farm.tasks.iter().find(|t| t.id == id).unwrap()
}

fn done(out: RenameOutcome) -> RenamePlan {
    match out {
        RenameOutcome::Done(p) => p,
        _ => panic!("expected RenameOutcome::Done"),
    }
}

#[test]
fn attachment_name_sanitizes_and_keeps_extension() {
    assert_eq!(attachment_name("login", "paste-1.png").as_deref(), Some("login.png"));
    assert_eq!(attachment_name("login.jpg", "paste-1.png").as_deref(), Some("login.jpg"));
    assert_eq!(attachment_name(" ../my shot (v2)", "a.png").as_deref(), Some("my-shot-v2.png"));
    assert_eq!(attachment_name("../", "a.png"), None);
    assert_eq!(attachment_name("notes", "README").as_deref(), Some("notes"));
}

#[test]
fn farm_rename_rewrites_every_reference_surface() {
    let mut child = task("yaksrs-0002", Status::Hairy);
    child.parent = Some("yaksrs-0001".into());
    child.depends_on = vec!["yaksrs-0001".into()];
    child.body = "blocked by yaksrs-0001, see [[yaksrs-0001]] and yaksrs-0009".into();
    let mut farm = farm_of(vec![task("yaksrs-0001", Status::Hairy), child]);

    let plan = done(farm.rename("yaksrs-0001", "yaks-0001", false));
    assert!(plan.applied);
    assert_eq!(plan.renames, vec![("yaksrs-0001".to_string(), "yaks-0001".to_string())]);

    // Subject file moved.
    assert!(has_file(&farm, "yaks-0001", Status::Hairy));
    assert!(!has_file(&farm, "yaksrs-0001", Status::Hairy));

    // Every referring surface updated; the non-id lookalike is left alone.
    let c = get(&farm, "yaksrs-0002");
    assert_eq!(c.parent.as_deref(), Some("yaks-0001"));
    assert_eq!(c.depends_on, vec!["yaks-0001".to_string()]);
    assert!(c.body.contains("blocked by yaks-0001"));
    assert!(c.body.contains("[[yaks-0001]]"));
    assert!(c.body.contains("yaksrs-0009"), "a token that is not a real id must not be rewritten");
}

#[test]
fn farm_rename_many_migrates_a_prefix_batch_across_statuses() {
    let mut b = task("yaksrs-0002", Status::Shorn);
    b.depends_on = vec!["yaksrs-0001".into()];
    let mut farm = farm_of(vec![task("yaksrs-0001", Status::Hairy), b]);

    let pairs = vec![
        ("yaksrs-0001".to_string(), "yaks-0001".to_string()),
        ("yaksrs-0002".to_string(), "yaks-0002".to_string()),
    ];
    let plan = done(farm.rename_many(&pairs, false));
    assert_eq!(plan.renames.len(), 2);
    assert!(has_file(&farm, "yaks-0001", Status::Hairy));
    assert!(has_file(&farm, "yaks-0002", Status::Shorn));
    assert!(!has_file(&farm, "yaksrs-0001", Status::Hairy));
    assert!(!has_file(&farm, "yaksrs-0002", Status::Shorn));
    let b2 = get(&farm, "yaks-0002");
    assert_eq!(b2.depends_on, vec!["yaks-0001".to_string()]);
}

#[test]
fn farm_rename_prefix_migrates_matching_ids_and_flips_config() {
    let mut b = task("yaksrs-0002", Status::Hairy);
    b.depends_on = vec!["yaksrs-0001".into()];
    // A different-prefix id must be left alone (the boundary is `yaksrs-`).
    let mut farm = farm_of(vec![task("yaksrs-0001", Status::Hairy), b, task("yaks-abcd", Status::Hairy)]);

    let plan = done(farm.rename_prefix("yaksrs", "yaks", false));
    let news: Vec<&str> = plan.renames.iter().map(|(_, n)| n.as_str()).collect();
    assert_eq!(news, vec!["yaks-0001", "yaks-0002"]);
    assert!(has_file(&farm, "yaks-0001", Status::Hairy));
    assert!(has_file(&farm, "yaks-abcd", Status::Hairy)); // untouched
    assert!(!has_file(&farm, "yaksrs-0001", Status::Hairy));
    let b2 = get(&farm, "yaks-0002");
    assert_eq!(b2.depends_on, vec!["yaks-0001".to_string()]);
    assert_eq!(farm.config.prefix, "yaks");
    // The owed writes end with the new config.
    let changes = farm.take_changes();
    assert!(matches!(changes.last(), Some(Change::Config(t)) if t.as_str() == "herd: yaks\n"));
}

#[test]
fn rename_collision_and_dry_run_change_nothing() {
    let mut farm = farm_of(vec![task("yaksrs-0001", Status::Hairy), task("yaks-0001", Status::Hairy)]);
    match farm.rename("yaksrs-0001", "yaks-0001", true) {
        RenameOutcome::Collision(id) => assert_eq!(id, "yaks-0001"),
        _ => panic!("expected collision"),
    }
    let mut farm = farm_of(vec![task("yaksrs-0001", Status::Hairy)]);
    let plan = done(farm.rename("yaksrs-0001", "yaks-0001", true));
    assert!(!plan.applied);
    assert!(has_file(&farm, "yaksrs-0001", Status::Hairy));
    assert!(!has_file(&farm, "yaks-0001", Status::Hairy));
    assert!(farm.take_changes().is_empty());
}

#[test]
fn live_descendants_come_children_first_and_by_id_within_a_level() {
    let mut a = task("yak-0001", Status::Hairy);
    a.parent = None;
    // Loaded out of id order on purpose: siblings are still taken by id.
    let mut c3 = task("yak-0003", Status::Hairy);
    c3.parent = Some("yak-0001".into());
    let mut c2 = task("yak-0002", Status::Shaving);
    c2.parent = Some("yak-0001".into());
    let mut g = task("yak-0004", Status::Hairy);
    g.parent = Some("yak-0002".into());
    let mut dead = task("yak-0005", Status::Dead);
    dead.parent = Some("yak-0003".into());
    let mut under_dead = task("yak-0006", Status::Hairy);
    under_dead.parent = Some("yak-0005".into());
    let tasks = vec![under_dead, g, c3, a, dead, c2];
    // Walk: [0002, 0003], then [0004, 0005], then [0006]; dead ones dropped;
    // reversed so every child precedes its parent.
    assert_eq!(live_descendants(&tasks, "yak-0001"), vec!["yak-0006", "yak-0004", "yak-0003", "yak-0002"]);
    assert_eq!(live_descendants(&tasks, "yak-0006"), Vec::<String>::new());
}

#[test]
fn dep_add_remove_lifecycle() {
    let mut farm = farm_of(vec![task("yaksrs-a", Status::Hairy), task("yaksrs-b", Status::Hairy)]);
    let now = "2026-02-01T00:00:00Z";
    assert_eq!(farm.dep_add("yaksrs-a", "yaksrs-b", now), DepOutcome::Added);
    assert_eq!(farm.dep_add("yaksrs-a", "yaksrs-b", now), DepOutcome::AlreadyDep);
    assert_eq!(farm.dep_add("yaksrs-a", "ghost", now), DepOutcome::DepNotFound);
    assert_eq!(farm.dep_add("ghost", "yaksrs-b", now), DepOutcome::TaskNotFound);
    assert_eq!(get(&farm, "yaksrs-a").depends_on, vec!["yaksrs-b".to_string()]);
    assert_eq!(get(&farm, "yaksrs-a").updated.as_deref(), Some(now));
    assert_eq!(farm.dep_remove("yaksrs-a", "yaksrs-b", now), DepOutcome::Removed);
    assert_eq!(farm.dep_remove("yaksrs-a", "yaksrs-b", now), DepOutcome::NotDep);
    assert!(get(&farm, "yaksrs-a").depends_on.is_empty());
}

#[test]
fn reparent_rules() {
    let mut g = task("yaksrs-g", Status::Hairy);
    g.parent = Some("yaksrs-c".into());
    let mut farm = farm_of(vec![task("yaksrs-p", Status::Hairy), task("yaksrs-c", Status::Hairy), g]);
    let now = "2026-02-01T00:00:00Z";
    assert!(matches!(farm.reparent("yaksrs-c", Some("yaksrs-c".into()), now), Reparent::Error(_)));
    assert!(matches!(farm.reparent("yaksrs-c", Some("ghost".into()), now), Reparent::Error(_)));
    assert!(matches!(farm.reparent("yaksrs-c", Some("yaksrs-g".into()), now), Reparent::Error(_)));
    assert_eq!(
        farm.reparent("yaksrs-c", Some("yaksrs-p".into()), now),
        Reparent::Done { new_parent: Some("yaksrs-p".into()) }
    );
    assert_eq!(get(&farm, "yaksrs-c").parent.as_deref(), Some("yaksrs-p"));
    assert!(matches!(farm.reparent("yaksrs-c", Some("yaksrs-p".into()), now), Reparent::Error(_)));
    assert_eq!(farm.reparent("yaksrs-c", None, now), Reparent::Done { new_parent: None });
    assert!(matches!(farm.reparent("yaksrs-c", None, now), Reparent::Error(_)));
}

#[test]
fn move_relocates_file_and_bumps_updated() {
    let mut farm = farm_of(vec![task("yaksrs-mv01", Status::Hairy), task("yaksrs-mv02", Status::Shorn)]);
    let now = "2026-02-01T00:00:00Z";
    assert!(matches!(farm.transition("yaksrs-mv01", Status::Shaving, now), Ok(MoveOutcome::Moved)));
    assert!(!has_file(&farm, "yaksrs-mv01", Status::Hairy));
    assert!(has_file(&farm, "yaksrs-mv01", Status::Shaving));
    assert_eq!(get(&farm, "yaksrs-mv01").updated.as_deref(), Some(now));
    assert!(matches!(farm.transition("yaksrs-mv02", Status::Shorn, now), Ok(MoveOutcome::AlreadyThere)));
    assert!(matches!(farm.transition("does-not-exist", Status::Hairy, now), Ok(MoveOutcome::NotFound)));
}

#[test]
fn farm_inbox_shows_blocked_yaks_regardless_of_status() {
    let mut blocked_hairy = task("yak-0001", Status::Hairy);
    blocked_hairy.needs = Some("human".into());
    let mut blocked_shorn = task("yak-0002", Status::Shorn);
    blocked_shorn.needs = Some("human".into());
    let farm = farm_of(vec![blocked_hairy, blocked_shorn, task("yak-0003", Status::Hairy)]);
    let mut got: Vec<String> = farm.inbox(FilterSpec::default()).into_iter().map(|t| t.id).collect();
    got.sort();
    assert_eq!(got, vec!["yak-0001", "yak-0002"]);
}

const NOW: &str = "2026-02-01T00:00:00Z";

fn new_task(title: &str, prefix: Option<&str>) -> NewTask {
    NewTask {
        title: title.into(),
        prefix: prefix.map(Into::into),
        kind: None,
        priority: None,
        parent: None,
        labels: vec![],
        depends_on: vec![],
        source: None,
        description: None,
        verify: None,
    }
}

fn issue_list(farm: &Farm, strict: bool) -> Vec<(IssueKind, Vec<String>)> {
    farm.doctor(strict).into_iter().map(|i| (i.kind, i.ids)).collect()
}

#[test]
fn farm_refs_flags_danglers_and_validated_mentions() {
    let mut subject = task("yak-0001", Status::Hairy);
    subject.title = "subject without an id token".into();
    subject.parent = Some("yak-0007".into());
    subject.depends_on = vec!["yak-0002".into(), "yak-9999".into()];
    subject.body = "see yak-0002 and [[yak-0003]] but not yak-9999".into();
    let farm = farm_of(vec![subject, task("yak-0002", Status::Shorn), task("yak-0003", Status::Hairy)]);
    let r = farm.refs("yak-0001").expect("subject exists");
    let got: Vec<(RefKind, &str, bool, Option<usize>)> =
        r.entries.iter().map(|e| (e.kind, e.id.as_str(), e.resolved, e.line)).collect();
    assert_eq!(
        got,
        vec![
            (RefKind::Parent, "yak-0007", false, None),
            (RefKind::Depends, "yak-0002", true, None),
            (RefKind::Depends, "yak-9999", false, None),
            (RefKind::Mention, "yak-0002", true, Some(1)),
            (RefKind::Mention, "yak-0003", true, Some(1)),
        ],
        "yak-9999 in the body must not become a mention (validation-gated)"
    );
}

#[test]
fn farm_refs_none_for_missing_task() {
    let farm = farm_of(vec![]);
    assert!(farm.refs("yak-dead").is_none());
}

#[test]
fn create_routes_to_the_requested_prefix_over_the_config_default() {
    let mut farm = farm_of(vec![]);
    match farm.create(new_task("cross-farm yak", Some("proj")), 7, NOW) {
        Ok(CreateOutcome::Created(t)) => assert!(t.id.starts_with("proj-"), "expected proj- id, got {}", t.id),
        _ => panic!("expected Created"),
    }
}

#[test]
fn create_without_a_prefix_uses_the_config_default() {
    let mut farm = farm_of(vec![]);
    let default = farm.config.prefix.clone();
    match farm.create(new_task("local yak", None), 7, NOW) {
        Ok(CreateOutcome::Created(t)) => {
            assert!(t.id.starts_with(&format!("{default}-")), "expected {default}- id, got {}", t.id)
        }
        _ => panic!("expected Created"),
    }
}

#[test]
fn create_rejects_a_malformed_prefix() {
    let mut farm = farm_of(vec![]);
    assert!(matches!(
        farm.create(new_task("bad", Some("Bad Prefix")), 7, NOW),
        Ok(CreateOutcome::InvalidPrefix(_))
    ));
    assert!(farm.tasks.is_empty());
}

#[test]
fn slaughter_guards_and_family_sweeps() {
    let kid = |id: &str, parent: &str, st: Status| {
        let mut t = task(id, st);
        t.parent = Some(parent.into());
        t
    };
    let mut farm = farm_of(vec![
        task("yak-0001", Status::Hairy),
        kid("yak-0002", "yak-0001", Status::Shaving),
        kid("yak-0003", "yak-0002", Status::Shorn),
        kid("yak-0004", "yak-0001", Status::Dead),
        task("yak-0005", Status::Hairy),
    ]);
    assert_eq!(
        farm.slaughter("yak-0001", false, NOW),
        Ok(SlaughterOutcome::HasLiveDescendants(vec!["yak-0003".into(), "yak-0002".into()]))
    );
    assert!(has_file(&farm, "yak-0001", Status::Hairy), "guard must not move");
    assert_eq!(
        farm.slaughter("yak-0001", true, NOW),
        Ok(SlaughterOutcome::Slaughtered(vec!["yak-0003".into(), "yak-0002".into(), "yak-0001".into()]))
    );
    for id in ["yak-0001", "yak-0002", "yak-0003", "yak-0004"] {
        assert!(has_file(&farm, id, Status::Dead), "{id} dead");
    }
    assert!(has_file(&farm, "yak-0005", Status::Hairy), "non-family untouched");
    assert_eq!(farm.slaughter("yak-0001", true, NOW), Ok(SlaughterOutcome::AlreadyDead));
    assert_eq!(farm.slaughter("yak-0005", false, NOW), Ok(SlaughterOutcome::Slaughtered(vec!["yak-0005".into()])));
    assert_eq!(farm.slaughter("yak-nope", true, NOW), Ok(SlaughterOutcome::NotFound));
}

#[test]
fn farm_transition_batch_moves_valid_ids_and_flags_missing() {
    let mut farm = farm_of(vec![
        task("yak-0001", Status::Hairy),
        task("yak-0002", Status::Hairy),
        task("yak-0003", Status::Hairy),
    ]);
    let mut any_failed = false;
    for id in ["yak-0001", "yak-0002"] {
        if farm.transition(id, Status::Shorn, NOW) != Ok(MoveOutcome::Moved) {
            any_failed = true;
        }
    }
    assert!(!any_failed, "an all-valid batch must not flag failure");
    assert!(has_file(&farm, "yak-0001", Status::Shorn));
    assert!(has_file(&farm, "yak-0002", Status::Shorn));
    let mut outcomes = Vec::new();
    for id in ["yak-0003", "yak-nope"] {
        outcomes.push(farm.transition(id, Status::Shorn, NOW));
    }
    assert_eq!(outcomes, vec![Ok(MoveOutcome::Moved), Ok(MoveOutcome::NotFound)]);
    assert!(has_file(&farm, "yak-0003", Status::Shorn), "the valid id must move despite a sibling failure");
}

#[test]
fn farm_doctor_flags_dangling_parent_and_depends_on() {
    let mut subject = task("yak-0001", Status::Hairy);
    subject.parent = Some("yak-0404".into());
    subject.depends_on = vec!["yak-0002".into(), "yak-0405".into()];
    let farm = farm_of(vec![subject, task("yak-0002", Status::Shorn)]);
    assert_eq!(
        issue_list(&farm, false),
        vec![
            (IssueKind::DanglingParent, vec!["yak-0001".to_string(), "yak-0404".to_string()]),
            (IssueKind::DanglingDependsOn, vec!["yak-0001".to_string(), "yak-0405".to_string()]),
        ],
        "resolvable refs (yak-0002) must not be flagged"
    );
}

#[test]
fn farm_doctor_flags_same_id_in_two_status_dirs() {
    let farm = farm_of(vec![task("yak-0001", Status::Hairy), task("yak-0001", Status::Shorn)]);
    let issues = farm.doctor(false);
    assert_eq!(issues.len(), 1, "one duplicated id -> one clash");
    assert_eq!(issues[0].kind, IssueKind::DuplicateStatus);
    assert_eq!(issues[0].ids, vec!["yak-0001"]);
    assert!(issues[0].message.contains("hairy") && issues[0].message.contains("shorn"), "message names both dirs: {}", issues[0].message);
}

#[test]
fn doctor_clean_farm_has_no_issues() {
    let mut a = task("yak-0001", Status::Hairy);
    a.parent = Some("yak-0002".into());
    a.depends_on = vec!["yak-0002".into()];
    let farm = farm_of(vec![a, task("yak-0002", Status::Shorn)]);
    assert!(farm.doctor(false).is_empty());
}

#[test]
fn doctor_strict_flags_shorn_yak_without_a_note() {
    let mut with_note = task("yak-0001", Status::Shorn);
    with_note.body = append_note("", "2026-01-02T00:00:00Z", Some("tester"), "did the work");
    let farm = farm_of(vec![with_note, task("yak-0002", Status::Shorn), task("yak-0003", Status::Dead)]);
    assert!(farm.doctor(false).is_empty(), "plain doctor must not flag missing evidence");
    assert_eq!(issue_list(&farm, true), vec![(IssueKind::MissingEvidence, vec!["yak-0002".to_string()])]);
}
