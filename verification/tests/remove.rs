use std::ops::Range;
use todone::remove::{
    apply_removal, apply_removals, can_remove, remove_selection, FileSnapshot, RemoveError,
};

fn range(src: &str, needle: &str) -> Range<usize> {
    let start = src
        .find(needle)
        .unwrap_or_else(|| panic!("{needle:?} not in {src:?}"));
    start..start + needle.len()
}

fn remove(src: &str, needle: &str) -> String {
    let out = remove_selection(src, &range(src, needle));
    // Removing again is always safe: the outcome must still be valid
    // input for a removal of the same range.
    assert!(out.removed_range == range(src, needle));
    out.content
}

#[test]
fn standalone_line_comment_removes_the_line() {
    assert_eq!(remove("// TODO: x\ncode\n", "// TODO: x"), "code\n");
    assert_eq!(remove("    // TODO: x\ncode\n", "// TODO: x"), "code\n");
    assert_eq!(remove("\t// TODO: x\ncode\n", "// TODO: x"), "code\n");
    assert_eq!(remove("// TODO: x\n", "// TODO: x"), "");
    assert_eq!(remove("// TODO: x", "// TODO: x"), "");
}

#[test]
fn comment_with_trailing_code_keeps_the_code() {
    assert_eq!(
        remove("let x = 1; // TODO: x\n", "// TODO: x"),
        "let x = 1;\n"
    );
    assert_eq!(remove("let x = 1; // TODO: x", "// TODO: x"), "let x = 1;");
}

#[test]
fn inline_block_comment_is_joined() {
    assert_eq!(
        remove("x(); /* TODO */ y();\n", "/* TODO */"),
        "x(); y();\n"
    );
    assert_eq!(remove("x(/* TODO */);\n", "/* TODO */"), "x();\n");
    assert_eq!(
        remove("let a = /* TODO */ 1;\n", "/* TODO */"),
        "let a = 1;\n"
    );
    assert_eq!(remove("let a = /* TODO */ 1;", "/* TODO */"), "let a = 1;");
}

#[test]
fn following_blank_line_is_collapsed() {
    assert_eq!(remove("// TODO: x\n\ncode\n", "// TODO: x"), "code\n");
    assert_eq!(remove("// TODO: x\n\n\ncode\n", "// TODO: x"), "\ncode\n");
    assert_eq!(
        remove("code\n\n// TODO: x\ncode2\n", "// TODO: x"),
        "code\n\ncode2\n"
    );
    assert_eq!(
        remove("// TODO: x\r\n\r\ncode\r\n", "// TODO: x"),
        "code\r\n"
    );
}

#[test]
fn crlf_and_no_final_newline_are_preserved() {
    assert_eq!(remove("// TODO: x\r\ncode\r\n", "// TODO: x"), "code\r\n");
    assert_eq!(
        remove("let x = 1; // TODO: x\r\n", "// TODO: x"),
        "let x = 1;\r\n"
    );
    assert_eq!(remove("code\n// TODO: x", "// TODO: x"), "code\n");
}

#[test]
fn multi_line_block_comment_is_removed_cleanly() {
    let src = "// start\n/* TODO: a\n * more\n */\ncode\n";
    assert_eq!(remove(src, "/* TODO: a\n * more\n */"), "// start\ncode\n");
    let src = "let x = /* TODO: a\n * more\n */ 5;\n";
    assert_eq!(remove(src, "/* TODO: a\n * more\n */"), "let x =\n 5;\n");
}

#[test]
fn consecutive_line_comments_are_removed_as_a_run() {
    let src = "// TODO: a\n// note: attached\ncode\n";
    assert_eq!(remove(src, "// TODO: a\n// note: attached"), "code\n");
}

#[test]
fn subset_selection_keeps_the_rest() {
    let src = "// TODO: a\n// keep me\ncode\n";
    // Select only the first comment.
    let range = range(src, "// TODO: a");
    let out = remove_selection(src, &range);
    assert_eq!(out.content, "// keep me\ncode\n");
}

#[test]
fn empty_selection_is_a_no_op() {
    let src = "// TODO: x\ncode\n";
    let out = remove_selection(src, &(0..0));
    assert_eq!(out.content, src);
}

#[test]
fn apply_removal_writes_and_verifies() {
    let content = "// TODO: x\ncode\n";
    let snapshot = FileSnapshot::capture("a.rs", content.as_bytes());
    assert_eq!(snapshot.path, "a.rs");

    let outcome = apply_removal(
        "a.rs",
        content.as_bytes(),
        &range(content, "// TODO: x"),
        &snapshot,
    )
    .unwrap();
    assert_eq!(outcome.content, "code\n");
}

#[test]
fn apply_removal_rejects_changed_files() {
    let snapshot = FileSnapshot::capture("a.rs", "// TODO: x\ncode\n".as_bytes());
    let err = apply_removal(
        "a.rs",
        "// TODO: x\nchanged!\n".as_bytes(),
        &(0..10),
        &snapshot,
    )
    .unwrap_err();
    assert!(matches!(err, RemoveError::Changed { .. }));
    assert_eq!(
        err.message(),
        "file a.rs changed since it was scanned; removal skipped"
    );
}

#[test]
fn apply_removal_rejects_out_of_bounds() {
    let snapshot = FileSnapshot::capture("a.rs", "code\n".as_bytes());
    let err = apply_removal("a.rs", "code\n".as_bytes(), &(5..9), &snapshot).unwrap_err();
    assert!(matches!(err, RemoveError::OutOfBounds { .. }));
    assert_eq!(
        err.message(),
        "selection 5..9 is out of bounds for file of 5 bytes"
    );
}

#[test]
fn apply_removal_treats_bad_utf8_as_changed() {
    let bytes = [0x2f, 0x2f, 0xff, 0xfe];
    let snapshot = FileSnapshot::capture("a.rs", &bytes);
    let err = apply_removal("a.rs", &bytes, &(0..2), &snapshot).unwrap_err();
    assert!(matches!(err, RemoveError::Changed { .. }));
}

#[test]
fn snapshot_hex_changes_with_content() {
    let a = FileSnapshot::capture("a.rs", "one\n".as_bytes());
    let b = FileSnapshot::capture("a.rs", "two\n".as_bytes());
    assert_ne!(a.sha256, b.sha256);
    assert!(a.sha256.len() == 64);
}

#[test]
fn snapshot_is_the_sha256_of_the_content() {
    let empty = FileSnapshot::capture("a.rs", &[]);
    assert_eq!(
        empty.sha256,
        "e3b0c44298fc1c149afbf4c8996fb92427ae41e4649b934ca495991b7852b855"
    );
    let abc = FileSnapshot::capture("a.rs", "abc".as_bytes());
    assert_eq!(
        abc.sha256,
        "ba7816bf8f01cfea414140de5dae2223b00361a396177a9cb410ff61f20015ad"
    );
}

#[test]
fn read_and_write_errors_name_the_file() {
    let read = RemoveError::Read {
        path: "a.rs".into(),
        source: "gone".into(),
    };
    assert_eq!(read.message(), "failed to read a.rs: gone");
    let write = RemoveError::Write {
        path: "a.rs".into(),
        source: "full".into(),
    };
    assert_eq!(write.message(), "failed to write a.rs: full");
}

#[test]
fn removal_ranges_lie_on_boundaries() {
    let src = "a // TODO\r\nb\n";
    assert!(can_remove(src, &(2..9)));
    assert!(can_remove(src, &(2..10)));
    assert!(can_remove(src, &(13..13)));
    assert!(!can_remove(src, &(9..2)));
    assert!(!can_remove(src, &(2..14)));
    assert!(!can_remove(src, &(14..14)));
    assert!(!can_remove("é", &(1..2)));
    assert!(can_remove("é", &(1..1)));
}

#[test]
fn a_terminator_goes_with_its_line() {
    let src = "// TODO: x\ncode\n";
    assert_eq!(remove_selection(src, &(0..11)).content, "code\n");
    let src = "// TODO: x\r\ncode\r\n";
    assert_eq!(remove_selection(src, &(0..11)).content, "code\r\n");
    assert_eq!(remove_selection(src, &(0..12)).content, "code\r\n");
    let src = "let x = 1; // TODO\r\ncode\r\n";
    assert_eq!(
        remove_selection(src, &(11..19)).content,
        "let x = 1;\r\ncode\r\n"
    );
}

#[test]
fn empty_selections_change_nothing() {
    let src = "a  é  \n";
    let bytes = src.as_bytes();
    let snapshot = FileSnapshot::capture("a.rs", bytes);
    for at in 0..=src.len() {
        let out = remove_selection(src, &(at..at));
        assert_eq!(out.content, src);
        assert_eq!(out.removed_range, at..at);
        let out = apply_removal("a.rs", bytes, &(at..at), &snapshot).unwrap();
        assert_eq!(out.content, src);
    }
}

fn remove_all(src: &str, ranges: Vec<Range<usize>>) -> Result<String, RemoveError> {
    let snapshot = FileSnapshot::capture("a.rs", src.as_bytes());
    apply_removals("a.rs", src.as_bytes(), &ranges, &snapshot).map(|o| o.content)
}

#[test]
fn code_before_a_trailing_comment_stays() {
    let src = "// TODO: a\nlet x = 1; // note\n";
    assert_eq!(
        remove_all(src, vec![0..10, 22..29]).unwrap(),
        "let x = 1;\n"
    );
}

#[test]
fn comments_with_nothing_between_go_as_one() {
    let src = "// TODO: a\n// b\n\n\ncode\n";
    assert_eq!(remove_all(src, vec![0..10, 11..15]).unwrap(), "\ncode\n");
    let src = "x(); // TODO: a\r\n    // b\r\ny();\r\n";
    assert_eq!(
        remove_all(src, vec![5..16, 21..26]).unwrap(),
        "x();\r\ny();\r\n"
    );
}

#[test]
fn removals_keep_what_is_outside() {
    let src = "f(/* a */ x, /* b */); // c \n  // d\ng();\n";
    let ranges = vec![2..9, 13..20, 23..28, 31..35];
    let kept: String = src
        .char_indices()
        .filter(|(i, c)| !c.is_whitespace() && !ranges.iter().any(|r| r.contains(i)))
        .map(|(_, c)| c)
        .collect();
    let out = remove_all(src, ranges).unwrap();
    assert_eq!(out, "f( x,);\ng();\n");
    let ink: String = out.chars().filter(|c| !c.is_whitespace()).collect();
    assert_eq!(ink, kept);
}

#[test]
fn removal_ranges_come_in_order() {
    let src = "/* a */ /* b */\n";
    let err = remove_all(src, vec![8..15, 0..7]).unwrap_err();
    assert_eq!(
        err,
        RemoveError::OutOfBounds {
            range: 0..7,
            len: 16
        }
    );
    let err = remove_all(src, vec![0..7, 8..99]).unwrap_err();
    assert_eq!(
        err,
        RemoveError::OutOfBounds {
            range: 8..99,
            len: 16
        }
    );
    assert_eq!(remove_all(src, vec![]).unwrap(), src);
    assert_eq!(remove_all(src, vec![3..3]).unwrap(), src);
    let snapshot = FileSnapshot::capture("a.rs", b"other");
    assert!(matches!(
        apply_removals("a.rs", src.as_bytes(), &vec![0..7], &snapshot).unwrap_err(),
        RemoveError::Changed { .. }
    ));
}

#[test]
fn several_ranges_leave_what_precedes_them() {
    let src = "// TODO: a\nlet x = 1; // note\ny(); /* b */ z();\n";
    let out = remove_all(src, vec![22..29, 35..42]).unwrap();
    assert_eq!(&out[..21], &src[..21]);
    assert_eq!(out, "// TODO: a\nlet x = 1;\ny(); z();\n");
}

#[test]
fn removal_keeps_every_other_character() {
    let src = "fn f(/* TODO */ x: u8) {\n    g(); // note\n}\n";
    let out = remove(src, "/* TODO */");
    let ink = |s: &str| -> String { s.chars().filter(|c| !c.is_whitespace()).collect() };
    assert_eq!(ink(&out), ink(&src.replace("/* TODO */", "")));
}

#[test]
fn the_last_of_two_comments_goes_first() {
    let src = "fn main() {\n    // TODO: a\n    x(); /* FIXME */ y();\n}\n";
    let first = range(src, "// TODO: a");
    let after = remove(src, "/* FIXME */");
    assert_eq!(&after[..first.end], &src[..first.end]);
    assert_eq!(
        remove_selection(&after, &first).content,
        "fn main() {\n    x(); y();\n}\n"
    );
}
