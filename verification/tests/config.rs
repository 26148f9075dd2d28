use yaks::store::config::{parse_config, Config};
use yaks::store::herds::declare_herds;

/// The verify command for `key`: its last entry.
fn verify_get<'a>(c: &'a Config, key: &str) -> Option<&'a str> {
    c.verify.iter().rev().find(|(k, _)| k == key).map(|(_, v)| v.as_str())
}

fn strings(v: &[&str]) -> Vec<String> {
    v.iter().map(|s| s.to_string()).collect()
}

#[test]
fn config_parses_verify_map_and_block_closes() {
    let c = parse_config(
        "prefix: yaks\nverify:\n  ui: cargo test docshots\n  cli: cargo test -p yaks\n  default: cargo test --workspace\nvim_mode: false\n",
    );
    assert_eq!(c.prefix, "yaks");
    assert!(!c.vim_mode, "vim_mode after the verify block still parsed");
    assert_eq!(verify_get(&c, "ui"), Some("cargo test docshots"));
    assert_eq!(verify_get(&c, "cli"), Some("cargo test -p yaks"));
    assert_eq!(verify_get(&c, "default"), Some("cargo test --workspace"));
}

#[test]
fn declare_herds_inserts_in_block_and_preserves_overrides() {
    let existing = "herd: core\nverify:\n  default: cargo test\n\n# declared herds\nherds:\n  core:\n    default_priority: 1\n    verify:\n      default: make check\nvim_mode: true\n";
    let (text, added) = declare_herds(existing, &strings(&["web", "core"]), &vec![]);
    assert_eq!(added, vec!["web".to_string()], "only the new herd is added");
    let web_i = text.lines().position(|l| l.trim() == "web:").unwrap();
    let vim_i = text.lines().position(|l| l.starts_with("vim_mode")).unwrap();
    assert!(web_i < vim_i, "herd entry inside the block:\n{text}");
    assert!(text.contains("# declared herds"));
    let c = parse_config(&text);
    assert_eq!(c.known_herds(), vec!["core".to_string(), "web".to_string()]);
    assert_eq!(c.default_priority_for("core"), 1);
    assert_eq!(c.resolve_verify(&vec![], Some("core")), Some("make check".to_string()));
    assert_eq!(c.resolve_verify(&vec![], Some("web")), Some("cargo test".to_string()));
}

#[test]
fn declare_herds_seeds_a_new_block_with_existing_herds() {
    let (text, added) = declare_herds("herd: core\nvim_mode: true\n", &strings(&["web"]), &strings(&["ops-0001"]));
    assert_eq!(added, vec!["web".to_string()]);
    let known = parse_config(&text).known_herds();
    assert_eq!(
        known,
        vec!["core".to_string(), "ops".to_string(), "web".to_string()],
        "new block keeps the config herd and on-disk prefixes"
    );
}

#[test]
fn config_ignores_comments_inside_blocks() {
    let c = parse_config(
        "herd: yaks\n# a top-level comment\nverify:\n  # ui runs first\n  ui: cargo test -p yaks\n  cli: cargo test -p yaks\n  default: cargo test --workspace\nherds:\n  # the real herd\n  yaks:\n  test:\n    # per-herd lever\n    verify:\n      default: echo test-lever\n",
    );
    assert_eq!(c.prefix, "yaks");
    assert_eq!(verify_get(&c, "ui"), Some("cargo test -p yaks"));
    assert_eq!(verify_get(&c, "cli"), Some("cargo test -p yaks"));
    assert_eq!(verify_get(&c, "default"), Some("cargo test --workspace"));
    assert_eq!(c.known_herds(), vec!["test".to_string(), "yaks".to_string()]);
    assert_eq!(c.resolve_verify(&vec![], Some("test")), Some("echo test-lever".to_string()));
}

#[test]
fn config_resolve_verify_precedence() {
    let c = parse_config("verify:\n  ui: UI\n  cli: CLI\n  default: DEF\n");
    assert_eq!(c.resolve_verify(&strings(&["cli", "ui"]), None).as_deref(), Some("CLI"));
    assert_eq!(c.resolve_verify(&strings(&["docs"]), None).as_deref(), Some("DEF"));
    assert_eq!(c.resolve_verify(&vec![], None).as_deref(), Some("DEF"));
    let c2 = parse_config("verify:\n  ui: UI\n");
    assert_eq!(c2.resolve_verify(&strings(&["docs"]), None), None);
    assert_eq!(c2.resolve_verify(&strings(&["ui"]), None).as_deref(), Some("UI"));
}

#[test]
fn config_parses_herds_and_cascades_global_to_herd() {
    let c = parse_config(
        "prefix: core\ndefault_type: task\ndefault_priority: 3\nverify:\n  default: cargo test\nherds:\n  core:\n    default_priority: 1\n    verify:\n      default: cargo test --workspace\n  web:\n    default_type: feature\n",
    );
    assert_eq!(c.known_herds(), vec!["core".to_string(), "web".to_string()]);
    assert_eq!(c.default_priority_for("core"), 1);
    assert_eq!(c.default_priority_for("web"), 3);
    assert_eq!(c.default_type_for("web"), "feature");
    assert_eq!(c.default_type_for("core"), "task");
    assert_eq!(c.resolve_verify(&vec![], Some("core")).as_deref(), Some("cargo test --workspace"));
    assert_eq!(c.resolve_verify(&vec![], Some("web")).as_deref(), Some("cargo test"));
    assert_eq!(c.resolve_verify(&vec![], None).as_deref(), Some("cargo test"));
}

#[test]
fn declaring_the_same_herds_again_changes_nothing() {
    let existing = "herd: core\nherds:\n  core:\n";
    let (once, added) = declare_herds(existing, &strings(&["web", "ops"]), &vec![]);
    assert_eq!(added, strings(&["ops", "web"]));
    let (twice, again) = declare_herds(&once, &strings(&["web", "ops"]), &vec![]);
    assert!(again.is_empty());
    assert_eq!(twice, once);
}

#[test]
fn known_herds_falls_back_to_the_prefix() {
    let c = parse_config("herd: solo\n");
    assert_eq!(c.known_herds(), vec!["solo".to_string()]);
}
