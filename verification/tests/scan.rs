use todone::matcher::MatchConfig;
use todone::model::{Comment, CommentRun};
use todone::scan::{
    collect_files, group_runs, parse_comment_nodes, scope_targets, split_at_matches, FileEntry,
    ScanError, ScanOptions, ScanResult, Scanner, Walked,
};

fn write(root: &mut Vec<FileEntry>, rel: &str, content: &str) {
    root.push(FileEntry {
        path: format!("/repo/{rel}"),
        content: Ok(content.as_bytes().to_vec()),
    });
}

fn scan_dir(files: Vec<FileEntry>) -> ScanResult {
    Scanner::new(ScanOptions::default())
        .unwrap()
        .scan("/repo", files)
        .unwrap()
}

fn scope(paths: Vec<&str>) -> ScanOptions {
    ScanOptions {
        paths: paths.into_iter().map(str::to_string).collect(),
        ..Default::default()
    }
}

fn comment(line: usize, end_line: usize, text: &str) -> Comment {
    Comment {
        path: "a.rs".into(),
        line,
        end_line,
        column: 0,
        byte_range: 0..text.len(),
        text: text.into(),
        language: "rust".into(),
    }
}

#[test]
fn finds_todos_across_languages() {
    let mut root = Vec::new();
    write(
        &mut root,
        "src/main.rs",
        "fn main() {\n    // TODO: fix this\n    // FIXME: and this\n}\n",
    );
    write(
        &mut root,
        "lib.py",
        "def f():\n    # TODO: python todo\n    pass\n",
    );
    write(
        &mut root,
        "script.sh",
        "#!/usr/bin/env bash\n# TODO: shell todo\necho hi\n",
    );
    write(
        &mut root,
        "main.c",
        "int main(void) {\n    // TODO: c todo\n    return 0;\n}\n",
    );
    write(
        &mut root,
        "main.go",
        "package main\n// TODO: go todo\nfunc main() {}\n",
    );
    write(&mut root, "app.ts", "// TODO: ts todo\nexport const x = 1;\n");
    write(&mut root, "config.json", "{\"a\": 1}\n");

    let result = scan_dir(root);
    let by_path: Vec<_> = result
        .findings
        .iter()
        .map(|f| {
            (
                f.path().clone(),
                f.category.clone(),
                f.line(),
            )
        })
        .collect();

    assert_eq!(result.stats.skipped_unsupported, 0);
    assert!(by_path.contains(&("src/main.rs".into(), "TODO".into(), 2)));
    assert!(by_path.contains(&("src/main.rs".into(), "FIXME".into(), 3)));
    assert!(by_path.contains(&("lib.py".into(), "TODO".into(), 2)));
    assert!(by_path.contains(&("script.sh".into(), "TODO".into(), 2)));
    assert!(by_path.contains(&("main.c".into(), "TODO".into(), 2)));
    assert!(by_path.contains(&("main.go".into(), "TODO".into(), 2)));
    assert!(by_path.contains(&("app.ts".into(), "TODO".into(), 1)));
    // The adjacent TODO and FIXME now report as two findings.
    assert_eq!(result.findings.len(), 7);
}

#[test]
fn each_matching_comment_is_its_own_finding() {
    // Adjacent marker comments never merge: every match is reported.
    let mut root = Vec::new();
    write(&mut root, "src/main.rs", "// TODO: a\n// FIXME: b\n// TODO: c\n");
    let result = scan_dir(root);
    let findings: Vec<_> = result
        .findings
        .iter()
        .map(|f| (f.category.clone(), f.line(), f.run.comments.len()))
        .collect();
    assert_eq!(
        findings,
        vec![
            ("TODO".to_string(), 1, 1),
            ("FIXME".to_string(), 2, 1),
            ("TODO".to_string(), 3, 1),
        ]
    );
    assert!(result.findings.iter().all(|f| f.selection.is_full(1)));
}

#[test]
fn non_matching_neighbours_travel_with_their_match() {
    // A note between two markers rides with the preceding match, and no
    // segment ever carries two matches.
    let mut root = Vec::new();
    write(&mut root, "a.rs", "// TODO: a\n// note\n// TODO: b\n");
    let result = scan_dir(root);
    assert_eq!(result.findings.len(), 2);
    let first = &result.findings[0];
    assert_eq!(first.category, "TODO");
    assert_eq!(first.run.comments.len(), 2);
    assert_eq!(first.run.comments[0].text, "// TODO: a");
    assert_eq!(first.run.comments[1].text, "// note");
    let second = &result.findings[1];
    assert_eq!(second.category, "TODO");
    assert_eq!(second.line(), 3);
    assert_eq!(second.run.comments.len(), 1);
}

#[test]
fn blank_comment_line_splits_the_run() {
    // A blank `//` separates two comments: the continuation keeps the
    // TODO, the FIXME becomes its own finding.
    let mut root = Vec::new();
    write(
        &mut root,
        "a.rs",
        "// TODO: something\n// and some continuation\n//\n// FIXME: some other\n",
    );
    let result = scan_dir(root);
    assert_eq!(result.findings.len(), 2);
    let first = &result.findings[0];
    assert_eq!(first.category, "TODO");
    assert_eq!(first.line(), 1);
    assert_eq!(first.run.comments.len(), 2);
    assert_eq!(first.run.comments[1].text, "// and some continuation");
    assert!(first.selection.is_full(2));
    let second = &result.findings[1];
    assert_eq!(second.category, "FIXME");
    assert_eq!(second.line(), 4);
    assert_eq!(second.run.comments.len(), 1);
}

#[test]
fn blank_only_markers_are_ignored() {
    // A bare `//` is a boundary, never a finding of its own.
    let mut root = Vec::new();
    write(&mut root, "a.rs", "//\n// TODO: real\n");
    let result = scan_dir(root);
    assert_eq!(result.findings.len(), 1);
    assert_eq!(result.findings[0].line(), 2);
}

#[test]
fn block_comment_splits_at_blank_lines() {
    // A blank ` * ` line inside one block comment separates its markers.
    let mut root = Vec::new();
    write(&mut root, "a.rs", "/* TODO: header\n *\n * FIXME: footer\n */\n");
    let result = scan_dir(root);
    assert_eq!(result.findings.len(), 2);
    assert_eq!(result.findings[0].category, "TODO");
    assert_eq!(result.findings[0].line(), 1);
    assert_eq!(result.findings[0].run.comments.len(), 1);
    assert_eq!(result.findings[1].category, "FIXME");
    assert_eq!(result.findings[1].line(), 3);
    assert_eq!(result.findings[1].run.comments.len(), 1);
}

#[test]
fn block_comment_without_blank_lines_stays_one_finding() {
    // No blank line inside the block: it is one visual comment, reported
    // once even though two lines mention markers.
    let mut root = Vec::new();
    write(&mut root, "a.rs", "/* TODO: a\n * FIXME: b\n */\n");
    let result = scan_dir(root);
    assert_eq!(result.findings.len(), 1);
    assert_eq!(result.findings[0].category, "TODO");
    assert_eq!(result.findings[0].line(), 1);
    assert_eq!(result.findings[0].run.comments.len(), 1);
}

#[test]
fn trailing_comment_range_excludes_code_before_it() {
    // The selection covers only the comment: nothing before `//`.
    let mut root = Vec::new();
    write(&mut root, "a.rs", "let x = 1; // TODO: fix\n");
    let result = scan_dir(root);
    assert_eq!(result.findings.len(), 1);
    let comment = &result.findings[0].run.comments[0];
    assert_eq!(comment.text, "// TODO: fix");
    assert_eq!(comment.column, 11);
    assert_eq!(comment.byte_range.start, 11);
    assert_eq!(result.findings[0].selected_range(), comment.byte_range);
}

#[test]
fn strings_and_urls_do_not_match() {
    let mut root = Vec::new();
    write(
        &mut root,
        "lib.py",
        "url = \"http://TODO.example\"\n\ndef f():\n    \"\"\"TODO inside docstring is not a comment.\"\"\"\n    pass\n",
    );
    let result = scan_dir(root);
    assert!(result.findings.is_empty());
    assert_eq!(result.stats.files, 1);
}

#[test]
fn adjacent_comments_form_a_run() {
    let mut root = Vec::new();
    write(
        &mut root,
        "a.rs",
        "// TODO: first\n// attached note\nfn main() {\n    let x = 1; // TODO: trailing\n}\n",
    );
    let result = scan_dir(root);
    let first = &result.findings[0];
    assert_eq!(first.run.comments.len(), 2);
    assert_eq!(first.category, "TODO");
    assert!(first.selection.is_full(2));

    let second = &result.findings[1];
    assert_eq!(second.run.comments.len(), 1);
    assert_eq!(second.line(), 4);
}

#[test]
fn grouped_block_comment_with_inline_attachments() {
    // A block comment with no blank lines is one visual comment; the
    // next-line TODO matches too, so the run splits into two findings.
    let mut root = Vec::new();
    write(
        &mut root,
        "a.rs",
        "/* TODO: header\n * more text\n */\n// TODO: next line\nfn main() {}\n",
    );
    let result = scan_dir(root);
    assert_eq!(result.findings.len(), 2);
    assert_eq!(result.findings[0].run.comments.len(), 1);
    assert_eq!(result.findings[0].line(), 1);
    assert_eq!(result.findings[1].run.comments.len(), 1);
    assert_eq!(result.findings[1].line(), 4);
}

#[test]
fn unsupported_extensions_are_counted() {
    let mut root = Vec::new();
    write(&mut root, "notes.txt", "TODO: not a code comment\n");
    let result = scan_dir(root);
    assert_eq!(result.stats.skipped_unsupported, 1);
    assert!(result.findings.is_empty());
}

#[test]
fn findings_are_sorted_by_path_then_line() {
    let mut root = Vec::new();
    write(&mut root, "b.rs", "// TODO: b1\n\n// TODO: b2\n");
    write(&mut root, "a.rs", "// TODO: a\n");
    let result = scan_dir(root);
    let paths: Vec<_> = result
        .findings
        .iter()
        .map(|f| (f.path().clone(), f.line()))
        .collect();
    assert_eq!(
        paths,
        vec![
            ("a.rs".to_string(), 1),
            ("b.rs".to_string(), 1),
            ("b.rs".to_string(), 3),
        ]
    );
}

#[test]
fn invalid_match_config_is_rejected() {
    let options = ScanOptions {
        match_config: MatchConfig {
            categories: vec![],
            ..Default::default()
        },
        ..Default::default()
    };
    assert!(Scanner::new(options).is_err());
}

#[test]
fn scope_limits_scanning() {
    let mut src = Vec::new();
    write(&mut src, "src/a.rs", "// TODO: in src\n");
    let options = scope(vec!["src"]);
    assert_eq!(scope_targets("/repo", &options), vec!["/repo/src"]);
    let result = Scanner::new(options).unwrap().scan("/repo", src).unwrap();
    assert_eq!(result.findings.len(), 1);
    assert_eq!(result.findings[0].path(), "src/a.rs");

    let mut other = Vec::new();
    write(&mut other, "other/b.rs", "// TODO: in other\n");
    let options = scope(vec!["other/b.rs"]);
    assert_eq!(scope_targets("/repo", &options), vec!["/repo/other/b.rs"]);
    let result = Scanner::new(options).unwrap().scan("/repo", other).unwrap();
    assert_eq!(result.findings.len(), 1);
    assert_eq!(result.findings[0].path(), "other/b.rs");
}

#[test]
fn explicitly_named_hidden_file_is_scanned() {
    let options = scope(vec![".hidden/secret.rs"]);
    assert_eq!(scope_targets("/repo", &options), vec!["/repo/.hidden/secret.rs"]);
    let files = collect_files(&vec![Walked::File("/repo/.hidden/secret.rs".into())]);
    assert_eq!(files, vec!["/repo/.hidden/secret.rs"]);

    let mut root = Vec::new();
    write(&mut root, ".hidden/secret.rs", "// TODO: hidden\n");
    assert_eq!(scan_dir(root).findings.len(), 1);
}

#[test]
fn non_utf8_and_oversized_files_are_skipped() {
    let huge = "// TODO: big\n".repeat(3_000_000);
    let files = vec![
        FileEntry {
            path: "/repo/bin.rs".into(),
            content: Ok(vec![0xff, 0xfe, 0x00, 0x01]),
        },
        FileEntry {
            path: "/repo/huge.rs".into(),
            content: Ok(huge.into_bytes()),
        },
    ];
    let options = ScanOptions {
        max_file_bytes: 1024 * 1024,
        ..Default::default()
    };
    let result = Scanner::new(options).unwrap().scan("/repo", files).unwrap();
    assert_eq!(result.stats.skipped_non_utf8, 1);
    assert_eq!(result.stats.skipped_too_large, 1);
    assert!(result.findings.is_empty());
}

#[test]
fn an_empty_scope_walks_the_root() {
    assert_eq!(scope_targets("/repo", &ScanOptions::default()), vec!["/repo"]);
}

#[test]
fn files_named_twice_are_scanned_once() {
    let walked = vec![
        Walked::File("/repo/src/a.rs".into()),
        Walked::File("/repo/src/a.rs".into()),
        Walked::Tree(vec!["/repo/src/b.rs".into(), "/repo/src/a.rs".into()]),
    ];
    assert_eq!(
        collect_files(&walked),
        vec!["/repo/src/a.rs", "/repo/src/b.rs", "/repo/src/a.rs"]
    );
    let mut root = Vec::new();
    write(&mut root, "src/a.rs", "// TODO: a\n");
    write(&mut root, "src/b.rs", "// TODO: b\n");
    write(&mut root, "src/a.rs", "// TODO: a\n");
    let result = scan_dir(root);
    assert_eq!(result.stats.files, 2);
    assert_eq!(result.findings.len(), 2);
}

#[test]
fn an_unreadable_file_fails_the_scan() {
    let files = vec![FileEntry {
        path: "/repo/a.rs".into(),
        content: Err("permission denied".into()),
    }];
    let err = Scanner::new(ScanOptions::default())
        .unwrap()
        .scan("/repo", files)
        .unwrap_err();
    assert!(matches!(err, ScanError::Read { .. }), "{err:?}");
    assert!(err.message().contains("permission denied"));
}

#[test]
fn comments_are_parsed_with_their_place() {
    let lang = todone::language::by_extension("a.rs").unwrap();
    let comments = parse_comment_nodes("a.rs", &lang, "fn f() {} // TODO: fix\n").unwrap();
    assert_eq!(comments.len(), 1);
    assert_eq!(comments[0].line, 1);
    assert_eq!(comments[0].end_line, 1);
    assert_eq!(comments[0].column, 10);
    assert_eq!(comments[0].byte_range, 10..22);
    assert_eq!(comments[0].text, "// TODO: fix");
    assert_eq!(comments[0].language, "rust");
}

#[test]
fn runs_break_at_gaps() {
    let comments = vec![
        comment(1, 1, "// a"),
        comment(2, 3, "/* b\n */"),
        comment(4, 4, "// c"),
        comment(6, 6, "// d"),
    ];
    let runs = group_runs(&comments);
    let sizes: Vec<_> = runs.iter().map(|r| r.comments.len()).collect();
    assert_eq!(sizes, vec![3, 1]);
}

#[test]
fn segments_cover_the_run() {
    let run = CommentRun {
        comments: vec![
            comment(1, 1, "// lead"),
            comment(2, 2, "// TODO: a"),
            comment(3, 3, "// note"),
            comment(4, 4, "// FIXME: b"),
            comment(5, 5, "// tail"),
        ],
    };
    let cats = vec![None, Some("TODO".into()), None, Some("FIXME".into()), None];
    let findings = split_at_matches(&run, &cats);
    let texts: Vec<Vec<&str>> = findings
        .iter()
        .map(|f| f.run.comments.iter().map(|c| c.text.as_str()).collect())
        .collect();
    assert_eq!(
        texts,
        vec![
            vec!["// lead", "// TODO: a", "// note"],
            vec!["// FIXME: b", "// tail"],
        ]
    );
    assert_eq!(findings[0].primary, 1);
    assert_eq!(findings[1].primary, 0);
    assert!(split_at_matches(&run, &vec![None, None, None, None, None]).is_empty());
}

#[test]
fn custom_rules_decide_the_scan() {
    let mut root = Vec::new();
    write(
        &mut root,
        "a.rs",
        "/// Triage TODO comments: scan.\n// TODO: the real one\n// TODO without colon\nfn main() {}\n",
    );
    let options = ScanOptions {
        match_config: MatchConfig {
            pattern: Some("^{comment}{marker}:{content}".into()),
            ..Default::default()
        },
        ..Default::default()
    };
    let result = Scanner::new(options).unwrap().scan("/repo", root).unwrap();
    let lines: Vec<_> = result.findings.iter().map(|f| f.line()).collect();
    assert_eq!(lines, vec![2]);
}

#[test]
fn stats_count_files_and_findings() {
    let mut root = Vec::new();
    write(&mut root, "a.rs", "// TODO: a\n// FIXME: b\n");
    write(&mut root, "b.rs", "fn f() {}\n");
    let result = scan_dir(root);
    assert_eq!(result.stats.files, 2);
    assert_eq!(result.stats.findings, 2);
    assert_eq!(result.stats.skipped_grammar, 0);
}

#[test]
fn columns_count_bytes() {
    let lang = todone::language::by_extension("a.rs").unwrap();
    let source = "let \u{e9} = 1; // TODO: x\n";
    let comments = parse_comment_nodes("a.rs", &lang, source).unwrap();
    assert_eq!(comments.len(), 1);
    assert_eq!(comments[0].text, "// TODO: x");
    assert_eq!(comments[0].line, 1);
    assert_eq!(comments[0].byte_range, 12..22);
    assert_eq!(comments[0].column, 12);
}

#[test]
fn runs_keep_every_comment() {
    let comments = vec![
        comment(1, 2, "a"),
        comment(2, 2, "b"),
        comment(3, 3, "c"),
        comment(5, 6, "d"),
        comment(8, 8, "e"),
    ];
    let runs = group_runs(&comments);
    let sizes: Vec<usize> = runs.iter().map(|r| r.comments.len()).collect();
    assert_eq!(sizes, vec![3, 1, 1]);
    let all: Vec<Comment> = runs.into_iter().flat_map(|r| r.comments).collect();
    assert_eq!(all, comments);
}

#[test]
fn each_match_of_a_scan_is_one_finding() {
    let mut root = Vec::new();
    write(
        &mut root,
        "b.rs",
        "// note\n// TODO: a\n// more\n// FIXME: b\nfn f() {} // TODO: c\n",
    );
    write(&mut root, "a.py", "# TODO: d\n\n# plain\n");
    let found = scan_dir(root).findings;
    let m = MatchConfig::default().compile().unwrap();
    let texts: Vec<&str> = found
        .iter()
        .map(|f| f.run.comments[f.primary].text.as_str())
        .collect();
    assert_eq!(
        texts,
        vec!["# TODO: d", "// TODO: a", "// FIXME: b", "// TODO: c"]
    );
    for f in &found {
        assert_eq!(f.selection.start, 0);
        assert_eq!(f.selection.end, f.run.comments.len() - 1);
        for (i, c) in f.run.comments.iter().enumerate() {
            assert_eq!(m.match_category(&c.text).is_some(), i == f.primary);
            assert_eq!(c.path, *f.path());
        }
        assert!(f
            .run
            .comments
            .windows(2)
            .all(|w| w[0].byte_range.start <= w[1].byte_range.start));
    }
}
