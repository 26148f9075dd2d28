use yaks::skills::digest;
use yaks::tui::cache::{slug, ui_state_path};

#[test]
fn slug_is_stable_and_short() {
    let a = slug("/tmp/some/herd");
    let b = slug("/tmp/some/herd");
    assert_eq!(a, b);
    assert_eq!(a.len(), 12);
}

#[test]
fn ui_state_path_names_the_farm_by_its_slug() {
    let root = "/home/u/repo/.yaks";
    assert_eq!(slug(root), digest(root)[..12].to_string());
    assert_ne!(slug(root), slug("/home/u/other/.yaks"));
    assert_eq!(ui_state_path("/home/u/.cache", root), format!("/home/u/.cache/yaks/{}.json", slug(root)));
}
