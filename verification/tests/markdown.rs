use yaks::tui::markdown::{highlight, Highlighter, MdSpan, MdStyle};

/// Collapse a line's spans into a compact `(start, len, tag)` form, where
/// `tag` is a short mnemonic for the style.
fn tags(spans: &[MdSpan]) -> Vec<(usize, usize, char)> {
    spans
        .iter()
        .map(|s| {
            let t = match s.style {
                MdStyle::Heading => 'h',
                MdStyle::Code => 'c',
                MdStyle::Marker => 'm',
                MdStyle::Bold => 'b',
                MdStyle::Italic => 'i',
                MdStyle::Bullet => 'u',
                MdStyle::Quote => 'q',
            };
            (s.start, s.len, t)
        })
        .collect()
}

fn line(text: &str) -> Vec<(usize, usize, char)> {
    tags(&Highlighter::new().line(text))
}

#[test]
fn heading_colors_whole_line() {
    assert_eq!(line("# Title"), vec![(0, 7, 'h')]);
    assert_eq!(line("### Deep"), vec![(0, 8, 'h')]);
    // Seven hashes is not a heading.
    assert_eq!(line("####### nope"), vec![]);
}

#[test]
fn bold_and_italic_dim_their_markers() {
    assert_eq!(line("**hi**"), vec![(0, 2, 'm'), (2, 2, 'b'), (4, 2, 'm')]);
    assert_eq!(line("*hi*"), vec![(0, 1, 'm'), (1, 2, 'i'), (3, 1, 'm')]);
}

#[test]
fn inline_code_spans_the_backticks() {
    assert_eq!(line("run `cargo test`"), vec![(4, 12, 'c')]);
}

#[test]
fn snake_case_is_not_emphasis() {
    assert_eq!(line("call some_var_name here"), vec![]);
}

#[test]
fn spaced_asterisks_are_not_emphasis() {
    assert_eq!(line("2 * 3 * 4"), vec![]);
}

#[test]
fn list_marker_is_colored_and_content_scanned() {
    assert_eq!(line("- **x**"), vec![(0, 1, 'u'), (2, 2, 'm'), (4, 1, 'b'), (5, 2, 'm')]);
    // Ordered marker includes the dot.
    assert_eq!(line("12. item"), vec![(0, 3, 'u')]);
}

#[test]
fn blockquote_whole_line() {
    assert_eq!(line("> quoted"), vec![(0, 8, 'q')]);
}

#[test]
fn fenced_block_colors_until_close() {
    let out = highlight("```rust\nlet x = 1;\n```\nafter");
    assert_eq!(tags(&out[0]), vec![(0, 7, 'm')]);
    assert_eq!(tags(&out[1]), vec![(0, 10, 'c')]);
    assert_eq!(tags(&out[2]), vec![(0, 3, 'm')]);
    assert_eq!(tags(&out[3]), vec![]);
}

#[test]
fn empty_line_has_no_spans() {
    assert_eq!(line(""), vec![]);
}

#[test]
fn spans_run_left_to_right_without_overlap() {
    let text = "  3) a `b` **c** _d_ x_y_z *e f* `open";
    let spans = Highlighter::new().line(text);
    assert_eq!(
        tags(&spans),
        vec![
            (2, 2, 'u'),
            (7, 3, 'c'),
            (11, 2, 'm'),
            (13, 1, 'b'),
            (14, 2, 'm'),
            (17, 1, 'm'),
            (18, 1, 'i'),
            (19, 1, 'm'),
            (27, 1, 'm'),
            (28, 3, 'i'),
            (31, 1, 'm'),
        ]
    );
    let n = text.chars().count();
    let mut end = 0;
    for s in &spans {
        assert!(s.len > 0);
        assert!(s.start >= end);
        end = s.start + s.len;
    }
    assert!(end <= n);
}

#[test]
fn a_shorter_or_different_fence_does_not_close_the_block() {
    let out = highlight("~~~~\n~~~\n```\n  ~~~~~  \nprose");
    assert_eq!(tags(&out[0]), vec![(0, 4, 'm')]);
    assert_eq!(tags(&out[1]), vec![(0, 3, 'c')]);
    assert_eq!(tags(&out[2]), vec![(0, 3, 'c')]);
    assert_eq!(tags(&out[3]), vec![(0, 9, 'm')]);
    assert_eq!(tags(&out[4]), vec![]);
}

#[test]
fn unclosed_delimiters_stay_plain() {
    assert_eq!(line("a `b"), vec![]);
    // The doubled opener finds no closing pair; the second `*` then opens
    // a single emphasis closed by the last one.
    assert_eq!(line("**a*"), vec![(1, 1, 'm'), (2, 1, 'i'), (3, 1, 'm')]);
    assert_eq!(line("*a *"), vec![]);
}
