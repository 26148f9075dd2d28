use yaks::refs::{has_ref_shape, known_from, resolve, rewrite, scan, strip_wikilinks};

#[test]
fn resolve_is_validation_based_not_prefix_based() {
    let known = known_from(&["yak-0af1", "yaksrs-15f7"]);
    // Both prefixes resolve because both ids are real: prefix-agnostic.
    assert_eq!(resolve("yak-0af1", &known), Some("yak-0af1".into()));
    assert_eq!(resolve("yaksrs-15f7", &known), Some("yaksrs-15f7".into()));
    // Bare-hex shorthand does not resolve, even though it's a real tail.
    assert_eq!(resolve("0af1", &known), None);
    // An id-shaped token that isn't a real id does not resolve.
    assert_eq!(resolve("yak-9999", &known), None);
}

#[test]
fn scan_finds_only_known_ids_in_order() {
    let known = known_from(&["yak-0003", "yak-0002"]);
    let got = scan("see yak-0003 and yak-0002 not yak-9999", &known);
    let seq: Vec<&str> = got.iter().map(|m| m.id.as_str()).collect();
    assert_eq!(seq, vec!["yak-0003", "yak-0002"]);
}

#[test]
fn scan_offsets_point_at_the_id_in_chars() {
    let known = known_from(&["yak-0001"]);
    // Leading multi-byte char so byte and char offsets differ.
    let text = "\u{e9} yak-0001 z";
    let m = &scan(text, &known)[0];
    let slice: String = text.chars().skip(m.start).take(m.len).collect();
    assert_eq!(slice, "yak-0001");
}

#[test]
fn wikilinks_normalize_to_bare_refs() {
    let known = known_from(&["yak-0002"]);
    let line = strip_wikilinks("a [[yak-0002]] b");
    assert_eq!(line, "a yak-0002 b");
    assert_eq!(scan(&line, &known).len(), 1);
}

#[test]
fn reserved_qualifier_colon_scans_local_id_for_now() {
    // The herd qualifier is not parsed; the local id still resolves and the
    // `other:` part is simply not a ref char run.
    let known = known_from(&["yak-0001"]);
    let got = scan("other:yak-0001", &known);
    assert_eq!(got.len(), 1);
    assert_eq!(got[0].id, "yak-0001");
}

#[test]
fn ref_shape_needs_a_lowercase_prefix_a_hyphen_and_a_tail() {
    assert!(has_ref_shape("yak-0af1"));
    assert!(has_ref_shape("yaks2-0001"));
    assert!(!has_ref_shape("0af1"));
    assert!(!has_ref_shape("yak-"));
    assert!(!has_ref_shape("Yak-0001"));
    assert!(!has_ref_shape("-0001"));
}

#[test]
fn rewrite_touches_whole_tokens_only() {
    let renames = vec![("yaksrs-0001".to_string(), "yaks-0001".to_string())];
    let (out, changed) = rewrite("see yaksrs-0001, [[yaksrs-0001]] not yaksrs-00011", &renames);
    assert!(changed);
    assert_eq!(out, "see yaks-0001, [[yaks-0001]] not yaksrs-00011");
    let (same, changed) = rewrite("nothing here", &renames);
    assert!(!changed);
    assert_eq!(same, "nothing here");
}
