use todone::context::{Context, ContextLine, LineKind};
use todone::highlight::HighlightSpan;
use todone::render::{
    bg, fg, pad_number, render_context, render_context_line, render_finding_header, RESET,
    SELECTION_BG,
};

fn line(
    text: &str,
    number: usize,
    offset: usize,
    kind: LineKind,
) -> ContextLine {
    ContextLine {
        line: number,
        text: text.into(),
        kind,
        byte_range: offset..offset + text.len(),
    }
}

#[test]
fn plain_output_has_no_ansi() {
    let text = "  // TODO: x";
    let out = render_context_line(text, 5, 0, &[], &(0..0), false, 3);
    assert!(out.ends_with("│   // TODO: x"));
    assert!(out.starts_with(' '));
    assert!(!out.contains('\x1b'));
    assert!(out.contains("5 │"));
}

#[test]
fn selected_line_gets_marker() {
    let out = render_context_line("// TODO: x", 5, 0, &[], &(0..11), false, 3);
    assert!(out.starts_with(" > "));
    let out = render_context_line("code", 5, 0, &[], &(100..200), false, 3);
    assert!(out.starts_with("   "));
}

#[test]
fn colored_output_contains_ansi() {
    let out = render_context_line("// TODO: x", 5, 0, &[], &(0..11), true, 3);
    assert!(out.contains('\x1b'));
    assert!(out.contains(RESET));
}

#[test]
fn selection_background_is_applied() {
    let out = render_context_line("let x = 1;", 1, 0, &[], &(0..11), true, 1);
    assert!(out.contains(&bg(SELECTION_BG)));
}

#[test]
fn syntax_spans_color_the_body() {
    let spans = vec![HighlightSpan {
        range: 0..2,
        fg: Some((255, 0, 0)),
        bold: false,
        italic: false,
    }];
    let out = render_context_line("let", 1, 0, &spans, &(0..0), true, 1);
    assert!(out.contains(&fg((255, 0, 0))));
}

#[test]
fn render_context_builds_a_block() {
    let ctx = Context {
        lines: vec![
            line("a", 1, 0, LineKind::Before),
            line("// TODO", 2, 2, LineKind::Selected),
            line("b", 3, 10, LineKind::After),
        ],
        selection: 2..9,
    };
    let out = render_context(&ctx, &[], false);
    assert!(out.contains("│ a"));
    assert!(out.contains(" > 2 │ // TODO"));
}

#[test]
fn header_renders() {
    let plain = render_finding_header("src/lib.rs", 5, "TODO", false);
    assert_eq!(plain, "src/lib.rs:5: TODO");
    assert!(render_finding_header("src/lib.rs", 5, "TODO", true).contains('\x1b'));
}

#[test]
fn escapes_are_exact() {
    assert_eq!(fg((1, 20, 255)), "\x1b[38;2;1;20;255m");
    assert_eq!(bg((0, 9, 10)), "\x1b[48;2;0;9;10m");
}

#[test]
fn plain_block_is_exact() {
    let ctx = Context {
        lines: vec![
            line("a", 9, 0, LineKind::Before),
            line("// TODO", 10, 2, LineKind::Selected),
        ],
        selection: 2..9,
    };
    assert_eq!(
        render_context(&ctx, &[], false),
        "    9 │ a\n > 10 │ // TODO\n"
    );
}

#[test]
fn numbers_are_right_aligned() {
    assert_eq!(pad_number(7, 3), "  7");
    assert_eq!(pad_number(1234, 3), "1234");
}

#[test]
fn later_spans_win() {
    let span = |range, fg| HighlightSpan {
        range,
        fg: Some(fg),
        bold: false,
        italic: false,
    };
    let spans = vec![span(0..3, (1, 1, 1)), span(0..3, (2, 2, 2))];
    let out = render_context_line("let", 1, 0, &spans, &(0..0), true, 1);
    assert!(out.contains(&fg((2, 2, 2))));
    assert!(!out.contains(&fg((1, 1, 1))));
}

/// A text without its ANSI escapes.
fn strip(s: &str) -> String {
    let mut out = String::new();
    let mut rest = s;
    while let Some(i) = rest.find("\x1b[") {
        out.push_str(&rest[..i]);
        rest = match rest[i..].find('m') {
            Some(j) => &rest[i + j + 1..],
            None => "",
        };
    }
    out + rest
}

#[test]
fn color_adds_no_text() {
    let spans = vec![HighlightSpan {
        range: 2..7,
        fg: Some((1, 20, 255)),
        bold: true,
        italic: false,
    }];
    let plain = render_context_line("  // TODO: m\u{e9}x", 5, 0, &spans, &(4..9), false, 3);
    let colored = render_context_line("  // TODO: m\u{e9}x", 5, 0, &spans, &(4..9), true, 3);
    assert_ne!(colored, plain);
    assert_eq!(strip(&colored), plain);
    assert!(colored.ends_with("\x1b[0m"));
}
