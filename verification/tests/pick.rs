use yaks::farm::Farm;
use yaks::model::{Status, Task};
use yaks::store::config::parse_config;
use yaks::store::layout::{Discovered, SchemaStatus};
use yaks::tui::pick::{resolve_pick, PickAction};

const NOW: &str = "2026-03-01T00:00:00Z";

fn task(id: &str, status: Status, parent: Option<&str>) -> Task {
    Task {
        id: id.into(),
        title: format!("title {id}"),
        kind: "task".into(),
        priority: 3,
        status,
        created: None,
        updated: None,
        parent: parent.map(Into::into),
        labels: vec![],
        depends_on: vec![],
        source: None,
        needs: None,
        verify: None,
        extra: Vec::new(),
        body: String::new(),
    }
}

fn farm_of(tasks: Vec<Task>) -> Farm {
    let files: Vec<(String, Status)> = tasks.iter().map(|t| (t.id.clone(), t.status)).collect();
    let found = Discovered { root: "/tmp/farm/.yaks".into(), prefix: None };
    match Farm::open(found, SchemaStatus::Compatible, tasks, files, parse_config(""), String::new()) {
        Ok(f) => f,
        Err(_) => panic!("a compatible farm opens"),
    }
}

fn status_of(farm: &Farm, id: &str) -> Status {
    farm.tasks.iter().find(|t| t.id == id).unwrap().status
}

fn s(v: &[&str]) -> Vec<String> {
    v.iter().map(|x| x.to_string()).collect()
}

#[test]
fn bulk_slaughter_skips_yaks_with_live_children_and_counts() {
    let mut farm = farm_of(vec![
        task("yak-0001", Status::Hairy, None),
        task("yak-0002", Status::Hairy, Some("yak-0001")),
        task("yak-0003", Status::Shorn, None),
        task("yak-0004", Status::Dead, None),
    ]);
    let msg = resolve_pick(&mut farm, PickAction::BulkState(s(&["yak-0001", "yak-0003", "yak-0004", "yak-9999"])), 'x', NOW);
    assert_eq!(msg.as_deref(), Some("1/4 \u{2192} dead \u{b7} 1 skipped: have children"));
    assert_eq!(status_of(&farm, "yak-0001"), Status::Hairy);
    assert_eq!(status_of(&farm, "yak-0003"), Status::Dead);
    assert_eq!(farm.take_changes().len(), 2);
}

#[test]
fn bulk_state_to_shaving_moves_all_and_ignores_other_keys() {
    let mut farm = farm_of(vec![task("yak-0001", Status::Hairy, None), task("yak-0002", Status::Hairy, Some("yak-0001"))]);
    assert_eq!(resolve_pick(&mut farm, PickAction::BulkState(s(&["yak-0001", "yak-0002"])), 'q', NOW), None);
    assert!(farm.take_changes().is_empty());
    let msg = resolve_pick(&mut farm, PickAction::BulkState(s(&["yak-0001", "yak-0002"])), 's', NOW);
    assert_eq!(msg.as_deref(), Some("2/2 \u{2192} shaving"));
}

#[test]
fn state_picker_moves_or_reports() {
    let mut farm = farm_of(vec![task("yak-0001", Status::Hairy, None)]);
    assert_eq!(resolve_pick(&mut farm, PickAction::State("yak-0001".into()), 'h', NOW).as_deref(), Some("yak-0001 already hairy"));
    assert_eq!(resolve_pick(&mut farm, PickAction::State("yak-0001".into()), 'n', NOW).as_deref(), Some("yak-0001 \u{2192} shorn"));
    assert_eq!(status_of(&farm, "yak-0001"), Status::Shorn);
    assert_eq!(resolve_pick(&mut farm, PickAction::State("yak-0404".into()), 'n', NOW).as_deref(), Some("yak-0404 not found"));
}

#[test]
fn priority_and_type_pickers_edit_or_report() {
    let mut farm = farm_of(vec![task("yak-0001", Status::Hairy, None)]);
    assert_eq!(resolve_pick(&mut farm, PickAction::Priority("yak-0001".into()), '3', NOW).as_deref(), Some("yak-0001 already p3"));
    assert_eq!(resolve_pick(&mut farm, PickAction::Priority("yak-0001".into()), '1', NOW).as_deref(), Some("yak-0001 \u{2192} p1"));
    assert_eq!(farm.tasks[0].priority, 1);
    assert_eq!(resolve_pick(&mut farm, PickAction::Priority("yak-0001".into()), 'z', NOW), None);
    assert_eq!(resolve_pick(&mut farm, PickAction::Type("yak-0001".into()), 't', NOW).as_deref(), Some("yak-0001 already task"));
    assert_eq!(resolve_pick(&mut farm, PickAction::Type("yak-0001".into()), 'b', NOW).as_deref(), Some("yak-0001 \u{2192} bug"));
    assert_eq!(farm.tasks[0].kind, "bug");
    assert_eq!(resolve_pick(&mut farm, PickAction::Type("yak-0404".into()), 'f', NOW).as_deref(), Some("yak-0404 not found"));
}

#[test]
fn herd_picker_renames_the_prefix() {
    let mut farm = farm_of(vec![task("yak-0001", Status::Hairy, None), task("web-0001", Status::Hairy, None)]);
    let herds = s(&["web", "ops"]);
    assert_eq!(resolve_pick(&mut farm, PickAction::Herd("yak-0001".into(), herds.clone()), '0', NOW), None);
    assert_eq!(resolve_pick(&mut farm, PickAction::Herd("yak-0001".into(), herds.clone()), '3', NOW), None);
    assert_eq!(
        resolve_pick(&mut farm, PickAction::Herd("yak-0001".into(), herds.clone()), '1', NOW).as_deref(),
        Some("web-0001 already exists in web")
    );
    assert_eq!(resolve_pick(&mut farm, PickAction::Herd("yak-0001".into(), herds.clone()), '2', NOW).as_deref(), Some("moved to ops"));
    assert!(farm.tasks.iter().any(|t| t.id == "ops-0001"));
    assert_eq!(resolve_pick(&mut farm, PickAction::Herd("plain".into(), herds), '1', NOW).as_deref(), Some("plain has no herd"));
}
