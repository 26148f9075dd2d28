use yaks::farm::attach::{replace_path_token, AttachOutcome, RenameAttachmentOutcome};
use yaks::farm::{Change, Farm};
use yaks::model::{Status, Task};
use yaks::store::config::parse_config;
use yaks::store::layout::{Discovered, SchemaStatus};

fn task(id: &str, body: &str) -> Task {
    Task {
        id: id.into(),
        title: format!("title {id}"),
        kind: "task".into(),
        priority: 3,
        status: Status::Hairy,
        created: None,
        updated: None,
        parent: None,
        labels: vec![],
        depends_on: vec![],
        source: None,
        needs: None,
        verify: None,
        extra: Vec::new(),
        body: body.into(),
    }
}

fn farm_of(tasks: Vec<Task>) -> Farm {
    let files: Vec<(String, Status)> = tasks.iter().map(|t| (t.id.clone(), t.status)).collect();
    let found = Discovered { root: "/tmp/farm/.yaks".into(), prefix: None };
    match Farm::open(found, SchemaStatus::Compatible, tasks, files, parse_config(""), String::new()) {
        Ok(f) => f,
        Err(_) => panic!("a compatible farm opens"),
    }
}

fn body_of(farm: &Farm, id: &str) -> String {
    farm.tasks.iter().find(|t| t.id == id).unwrap().body.clone()
}

#[test]
fn attach_appends_a_markdown_image_link() {
    let mut farm = farm_of(vec![task("yak-0001", "Some text.\n\n"), task("yak-0002", "")]);
    match farm.attach("yak-0001", "login.png", "2026-01-01T00:00:00Z") {
        AttachOutcome::Attached(n) => assert_eq!(n, "login.png"),
        AttachOutcome::NotFound => panic!("the yak exists"),
    }
    assert_eq!(body_of(&farm, "yak-0001"), "Some text.\n\n![login](artifacts/yak-0001/login.png)");
    // An empty body gets the link alone; a name without extension is its own stem.
    assert!(matches!(farm.attach("yak-0002", "notes", "2026-01-01T00:00:00Z"), AttachOutcome::Attached(_)));
    assert_eq!(body_of(&farm, "yak-0002"), "![notes](artifacts/yak-0002/notes)");
    assert!(matches!(farm.attach("yak-9999", "x.png", "2026-01-01T00:00:00Z"), AttachOutcome::NotFound));
    let changes = farm.take_changes();
    assert_eq!(changes.len(), 2);
    assert!(matches!(&changes[0], Change::Save(t) if t.updated.as_deref() == Some("2026-01-01T00:00:00Z")));
}

#[test]
fn path_token_replacement_leaves_lookalike_names_alone() {
    let old = "artifacts/yak-1/shot.png";
    let new = "artifacts/yak-1/login.png";
    assert_eq!(replace_path_token("see artifacts/yak-1/shot.png.", old, new), "see artifacts/yak-1/login.png.");
    assert_eq!(replace_path_token("(artifacts/yak-1/shot.png)", old, new), "(artifacts/yak-1/login.png)");
    // Part of a longer name: left as is.
    assert_eq!(replace_path_token("artifacts/yak-1/shot.png2", old, new), "artifacts/yak-1/shot.png2");
    assert_eq!(replace_path_token("xartifacts/yak-1/shot.png", old, new), "xartifacts/yak-1/shot.png");
    assert_eq!(replace_path_token("artifacts/yak-1/shot.png.bak", old, new), "artifacts/yak-1/shot.png.bak");
}

#[test]
fn rename_attachment_rewrites_links_and_refuses_bad_requests() {
    let mut farm = farm_of(vec![
        task("yak-0001", "![paste-1](artifacts/yak-0001/paste-1.png)"),
        task("yak-0002", "see artifacts/yak-0001/paste-1.png and artifacts/yak-0001/paste-1.png2"),
        task("yak-0003", "unrelated"),
    ]);
    let present = vec!["paste-1.png".to_string(), "taken.png".to_string()];
    let now = "2026-01-02T00:00:00Z";
    match farm.rename_attachment("yak-0001", "paste-1.png", "login", &present, now) {
        RenameAttachmentOutcome::Renamed { name, rewritten } => {
            assert_eq!(name, "login.png");
            assert_eq!(rewritten, 2);
        }
        _ => panic!("expected a rename"),
    }
    assert_eq!(body_of(&farm, "yak-0001"), "![login](artifacts/yak-0001/login.png)");
    assert_eq!(
        body_of(&farm, "yak-0002"),
        "see artifacts/yak-0001/login.png and artifacts/yak-0001/paste-1.png2"
    );
    assert_eq!(body_of(&farm, "yak-0003"), "unrelated");
    assert!(matches!(
        farm.rename_attachment("yak-9999", "a.png", "b", &present, now),
        RenameAttachmentOutcome::TaskNotFound
    ));
    assert!(matches!(
        farm.rename_attachment("yak-0001", "gone.png", "b", &present, now),
        RenameAttachmentOutcome::NoSuchAttachment(_)
    ));
    assert!(matches!(
        farm.rename_attachment("yak-0001", "../paste-1.png", "b", &present, now),
        RenameAttachmentOutcome::NoSuchAttachment(_)
    ));
    assert!(matches!(
        farm.rename_attachment("yak-0001", "paste-1.png", "../", &present, now),
        RenameAttachmentOutcome::Invalid(_)
    ));
    assert!(matches!(
        farm.rename_attachment("yak-0001", "paste-1.png", "paste-1", &present, now),
        RenameAttachmentOutcome::Unchanged
    ));
    assert!(matches!(
        farm.rename_attachment("yak-0001", "paste-1.png", "taken", &present, now),
        RenameAttachmentOutcome::Collision(n) if n == "taken.png"
    ));
    // A case-only rename is not a collision with itself.
    let present = vec!["Shot.png".to_string(), "shot.png".to_string()];
    assert!(matches!(
        farm.rename_attachment("yak-0001", "Shot.png", "shot", &present, now),
        RenameAttachmentOutcome::Renamed { .. }
    ));
}
