use todone::context::{extract_context, LineKind};
use todone::model::{Comment, CommentRun, Finding, Selection};

fn finding(line: usize, end_line: usize) -> Finding {
    Finding {
        run: CommentRun {
            comments: vec![Comment {
                path: "a.rs".into(),
                line,
                end_line,
                column: 0,
                byte_range: 0..10,
                text: "// TODO: x".into(),
                language: "rust".into(),
            }],
        },
        category: "TODO".into(),
        primary: 0,
        selection: Selection::full(1),
    }
}

#[test]
fn window_clamps_at_edges() {
    let source = "1\n2\n3\n4\n5\n";
    let finding = finding(3, 3);
    let context = extract_context(source, &finding, 1, 1);
    let nums: Vec<_> = context.lines.iter().map(|l| l.line).collect();
    assert_eq!(nums, vec![2, 3, 4]);
    assert_eq!(context.lines[1].kind, LineKind::Selected);
    assert_eq!(context.lines[0].kind, LineKind::Before);
    assert_eq!(context.lines[2].kind, LineKind::After);
}

#[test]
fn window_at_file_start() {
    let source = "1\n2\n3\n";
    let finding = finding(1, 1);
    let context = extract_context(source, &finding, 5, 5);
    let nums: Vec<_> = context.lines.iter().map(|l| l.line).collect();
    assert_eq!(nums, vec![1, 2, 3]);
}

#[test]
fn multi_line_selection_marks_all_lines() {
    let source = "1\n2\n3\n4\n";
    let finding = finding(2, 3);
    let context = extract_context(source, &finding, 0, 0);
    assert!(context.lines.iter().all(|l| l.kind == LineKind::Selected));
}

#[test]
fn line_ranges_are_byte_accurate() {
    let source = "ab\ncde\nfg\n";
    let finding = finding(2, 2);
    let context = extract_context(source, &finding, 1, 1);
    assert_eq!(context.lines[0].byte_range, 0..2);
    assert_eq!(context.lines[1].byte_range, 3..6);
    assert_eq!(context.lines[2].byte_range, 7..9);
}

#[test]
fn selection_range_passes_through() {
    let source = "ab\n// TODO: x\n";
    let finding = finding(2, 2);
    let context = extract_context(source, &finding, 0, 0);
    assert_eq!(context.selection, 0..10);
}

#[test]
fn line_ranges_count_crlf_terminators() {
    let source = "ab\r\ncdé\r\nfg";
    let context = extract_context(source, &finding(2, 2), 1, 1);
    assert_eq!(context.lines[0].byte_range, 0..2);
    assert_eq!(context.lines[1].byte_range, 4..8);
    assert_eq!(context.lines[2].byte_range, 10..12);
    for line in &context.lines {
        assert_eq!(&source[line.byte_range.clone()], line.text);
    }
}

#[test]
fn window_past_the_file_is_empty() {
    let context = extract_context("1\n", &finding(5, 5), 1, 1);
    assert!(context.lines.is_empty());
    let context = extract_context("", &finding(1, 1), 3, 3);
    assert!(context.lines.is_empty());
}

#[test]
fn window_lines_are_consecutive() {
    let source = "1\n2\n3\n4\n5\n6\n";
    let context = extract_context(source, &finding(4, 4), 2, 9);
    let nums: Vec<_> = context.lines.iter().map(|l| l.line).collect();
    assert_eq!(nums, vec![2, 3, 4, 5, 6]);
}
