use yaks::skills::{digest, inspect, read_stamp, stamp, version, version_gt, SkillState, SPEC_FRONTMATTER_KEYS};

/// A pristine skill source shaped like the bundled `SKILL.md` files.
const SKILL: &str = "---\n\
name: yaks\n\
description: Track work as yaks in the repo's own task farm.\n\
---\n\
\n\
# yaks\n\
\n\
Run `yaks next` to pick up the next ready yak.\n";

/// The second skill source, shaped like the first.
const TRACKER_SKILL: &str = "---\n\
name: yaks-tracker\n\
description: Record progress on yaks while working.\n\
license: MIT\n\
---\n\
\n\
Append a note with `yaks note <id> <text>`.\n";

/// The skill sources by name.
const BUNDLED: &[(&str, &str)] = &[("yaks", SKILL), ("yaks-tracker", TRACKER_SKILL)];

/// Top-level frontmatter keys of a SKILL.md (the `key:` lines between the
/// opening and closing `---`, ignoring nested/indented lines and comments).
fn frontmatter_keys(src: &str) -> Vec<String> {
    let mut lines = src.lines();
    assert_eq!(lines.next().map(str::trim), Some("---"), "SKILL.md must open with frontmatter");
    let mut keys = Vec::new();
    for line in lines {
        if line.trim() == "---" {
            break;
        }
        if line.starts_with(' ') || line.starts_with('\t') || line.trim_start().starts_with('#') {
            continue;
        }
        if let Some((k, _)) = line.split_once(':') {
            keys.push(k.trim().to_string());
        }
    }
    keys
}

#[test]
fn stamp_round_trips_and_stays_spec_legal() {
    let src = SKILL;
    let out = stamp(src, "1.2.3");
    // The stamp lands in the frontmatter, under the spec's metadata: field.
    assert!(out.contains("metadata:\n  yaks-version: \"1.2.3\""));
    assert_eq!(frontmatter_keys(&out).last().unwrap(), "metadata");
    for k in frontmatter_keys(&out) {
        assert!(SPEC_FRONTMATTER_KEYS.contains(&k.as_str()), "key {k:?}");
    }
    // Stripping it back recovers the pristine source exactly.
    let (s, written) = read_stamp(&out).expect("stamped file parses");
    assert_eq!(s.version, "1.2.3");
    assert_eq!(written, src);
    assert_eq!(s.digest, digest(src));
}

#[test]
fn version_comparison_is_numeric_not_lexical() {
    assert!(version_gt("0.0.10", "0.0.9")); // the lexical trap
    assert!(version_gt("0.1.0", "0.0.99"));
    assert!(!version_gt("0.0.9", "0.0.9"));
    assert!(!version_gt("0.0.9", "0.0.10"));
}

#[test]
fn a_pristine_source_carries_no_stamp() {
    assert!(read_stamp(SKILL).is_none());
    assert!(read_stamp("no frontmatter at all\n").is_none());
}

#[test]
fn stamping_needs_frontmatter() {
    assert_eq!(stamp("plain text\n", "1.0.0"), "plain text\n");
    assert_eq!(stamp("---\nname: x\nno close\n", "1.0.0"), "---\nname: x\nno close\n");
}

#[test]
fn digest_is_sixteen_hex_digits_and_tells_texts_apart() {
    let d = digest(SKILL);
    assert_eq!(d.len(), 16);
    assert!(d.chars().all(|c| c.is_ascii_hexdigit()));
    assert_eq!(d, digest(SKILL));
    assert_ne!(d, digest("other"));
    // FNV-1a of the empty input is its offset basis.
    assert_eq!(digest(""), "cbf29ce484222325");
}

#[test]
fn inspect_classifies_installs() {
    let current = stamp(SKILL, version());
    assert_eq!(inspect(false, None, SKILL), SkillState::Absent);
    assert_eq!(inspect(false, Some(&current), SKILL), SkillState::Current);
    // A hand edit of a stamped install is Modified.
    let edited = current.replace("next ready", "NEXT READY");
    assert!(matches!(inspect(false, Some(&edited), SKILL), SkillState::Modified { .. }));
    // An unstamped file is not ours.
    assert!(matches!(inspect(false, Some("---\nname: mine\n---\nhi\n"), SKILL), SkillState::Unmanaged));
    // An install from an older build, untouched, is upgradable.
    let old = stamp("---\nname: yaks\ndescription: older words.\n---\nold\n", "0.0.1");
    assert!(matches!(inspect(false, Some(&old), SKILL), SkillState::Upgradable { .. }));
    // A newer build's install is held.
    let newer = stamp("---\nname: yaks\ndescription: newer words.\n---\nnew\n", "9.0.0");
    assert!(matches!(inspect(false, Some(&newer), SKILL), SkillState::Held { .. }));
    assert_eq!(inspect(true, Some(&current), SKILL), SkillState::SourceLinked);
}

#[test]
fn stamp_round_trips_without_a_final_newline_and_with_blank_tail() {
    for src in ["---\nname: x\n---\nbody", "---\nname: x\ndescription: y\n---\n\n\n", "---\n\n---\n"] {
        let out = stamp(src, "0.2.0-rc1");
        let (s, written) = read_stamp(&out).expect("stamped file parses");
        assert_eq!(s.version, "0.2.0-rc1");
        assert_eq!(s.digest, digest(src));
        assert_eq!(written, src);
    }
}

#[test]
fn bundled_skills_use_only_spec_frontmatter_keys() {
    for (name, content) in BUNDLED {
        let keys = frontmatter_keys(content);
        for k in &keys {
            assert!(SPEC_FRONTMATTER_KEYS.contains(&k.as_str()), "skill {name:?} has non-spec frontmatter key {k:?}");
        }
        for required in ["name", "description"] {
            assert!(keys.iter().any(|k| k == required), "skill {name:?} is missing required frontmatter key {required:?}");
        }
        let declared = content.lines().find_map(|l| l.strip_prefix("name:")).map(str::trim).unwrap_or_default();
        assert_eq!(declared, *name, "skill {name:?} declares a `name` that doesn't match its directory");
    }
}

#[test]
fn bundled_source_is_never_itself_stamped() {
    for (name, content) in BUNDLED {
        assert!(read_stamp(content).is_none(), "skills/{name}/SKILL.md carries a provenance stamp");
        assert!(
            !content.contains("yaks-version") && !content.contains("yaks-digest"),
            "skills/{name}/SKILL.md mentions a stamp key"
        );
    }
}
