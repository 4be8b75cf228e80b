use todone::model::{Comment, CommentRun, Finding, Selection};

fn comment(start: usize, end: usize) -> Comment {
    Comment {
        path: "src/lib.rs".into(),
        line: 1,
        end_line: 1,
        column: 0,
        byte_range: start..end,
        text: "// TODO: x".into(),
        language: "rust".into(),
    }
}

#[test]
fn selection_full_and_clamp() {
    let mut sel = Selection { start: 0, end: 3 };
    assert!(sel.is_full(4));
    assert!(!sel.is_full(5));

    sel.start = 5;
    sel.clamp(4, 2);
    assert_eq!((sel.start, sel.end), (2, 3));

    sel = Selection { start: 0, end: 1 };
    sel.clamp(4, 3);
    assert_eq!((sel.start, sel.end), (0, 3));
}

#[test]
fn selection_byte_range_covers_selected_comments() {
    let run = CommentRun {
        comments: vec![comment(0, 10), comment(11, 20), comment(21, 30)],
    };
    let sel = Selection { start: 1, end: 2 };
    assert_eq!(sel.byte_range(&run), 11..30);
}

#[test]
fn run_byte_range_spans_first_to_last() {
    let run = CommentRun {
        comments: vec![comment(0, 10), comment(11, 20)],
    };
    assert_eq!(run.byte_range(), 0..20);
    assert_eq!(run.first_line(), 1);
}

#[test]
fn finding_helpers() {
    let run = CommentRun {
        comments: vec![comment(0, 10)],
    };
    let finding = Finding {
        run,
        category: "TODO".into(),
        primary: 0,
        selection: Selection::full(1),
    };
    assert_eq!(finding.path(), "src/lib.rs");
    assert_eq!(finding.line(), 1);
    assert_eq!(finding.selected_range(), 0..10);
}

#[test]
fn selection_grow_shrink_and_reset() {
    let run = CommentRun {
        comments: vec![comment(0, 10), comment(11, 20), comment(21, 30)],
    };
    // The primary is the middle comment.
    let mut finding = Finding {
        run: run.clone(),
        category: "TODO".into(),
        primary: 1,
        selection: Selection { start: 0, end: 2 },
    };

    // Growing is bounded by the run.
    finding.grow_selection_top();
    assert_eq!((finding.selection.start, finding.selection.end), (0, 2));
    finding.grow_selection_bottom();
    assert_eq!((finding.selection.start, finding.selection.end), (0, 2));

    // Shrink from the top.
    finding.shrink_selection_top();
    assert_eq!((finding.selection.start, finding.selection.end), (1, 2));
    // Shrink from the bottom.
    finding.shrink_selection_bottom();
    assert_eq!((finding.selection.start, finding.selection.end), (1, 1));

    // The primary always stays selected.
    finding.shrink_selection_top();
    finding.shrink_selection_bottom();
    assert_eq!((finding.selection.start, finding.selection.end), (1, 1));

    // A smaller run grows both directions.
    let mut finding = Finding {
        run,
        category: "TODO".into(),
        primary: 1,
        selection: Selection { start: 1, end: 1 },
    };
    finding.grow_selection_top();
    assert_eq!((finding.selection.start, finding.selection.end), (0, 1));
    finding.grow_selection_bottom();
    assert_eq!((finding.selection.start, finding.selection.end), (0, 2));

    finding.reset_selection();
    assert_eq!((finding.selection.start, finding.selection.end), (0, 2));
}

#[test]
fn empty_run_selection_is_empty() {
    let sel = Selection::full(0);
    assert!(sel.start > sel.end);
    assert!(sel.is_full(0));
    let mut unchanged = Selection { start: 4, end: 2 };
    unchanged.clamp(0, 1);
    assert_eq!((unchanged.start, unchanged.end), (4, 2));
}

#[test]
fn shrinking_and_growing_keep_the_primary() {
    let mut finding = Finding {
        run: CommentRun {
            comments: vec![comment(0, 10), comment(11, 20), comment(21, 30)],
        },
        category: "TODO".into(),
        primary: 1,
        selection: Selection::full(3),
    };
    finding.shrink_selection();
    assert_eq!((finding.selection.start, finding.selection.end), (0, 1));
    finding.shrink_selection();
    assert_eq!((finding.selection.start, finding.selection.end), (1, 1));
    finding.shrink_selection();
    assert_eq!((finding.selection.start, finding.selection.end), (1, 1));
    finding.grow_selection();
    assert_eq!((finding.selection.start, finding.selection.end), (1, 2));
    finding.grow_selection();
    assert_eq!((finding.selection.start, finding.selection.end), (0, 2));
    finding.grow_selection();
    assert_eq!((finding.selection.start, finding.selection.end), (0, 2));
}
