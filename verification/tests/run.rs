use todone::config::Config;
use todone::context::LineKind;
use todone::repo::discover_repo;
use todone::run::{build_report, render_finding, ScanContext};
use todone::scan::{FileEntry, ScanOptions, ScanResult, Scanner};

const MAIN: &str = "fn main() {\n    // TODO: fix this\n    // FIXME: and this\n}\n";

fn scanned() -> ScanResult {
    Scanner::new(ScanOptions::default())
        .unwrap()
        .scan(
            "/repo",
            vec![FileEntry {
                path: "/repo/src/main.rs".into(),
                content: Ok(MAIN.as_bytes().to_vec()),
            }],
        )
        .unwrap()
}

fn context(before: usize, after: usize) -> ScanContext {
    let mut config = Config::defaults();
    config.context.before = before;
    config.context.after = after;
    ScanContext {
        config,
        repo: discover_repo(Some("/repo\n".into()), Some("3141b14\n".into()), None).unwrap(),
    }
}

#[test]
fn findings_print_with_context() {
    let result = scanned();
    let text = render_finding(&result.findings[0], &context(1, 1), MAIN, &[], false);
    assert_eq!(
        text,
        "src/main.rs:2: TODO\n   1 │ fn main() {\n > 2 │     // TODO: fix this\n   3 │     // FIXME: and this\n\n"
    );
    assert!(render_finding(&result.findings[1], &context(0, 0), MAIN, &[], true).contains('\x1b'));
}

#[test]
fn report_lists_readable_findings() {
    let result = scanned();
    let sources = vec![Some(MAIN.to_string()), None];
    let report = build_report(&result, &context(3, 0), &sources);
    assert_eq!(report.repo.root, "/repo");
    assert_eq!(report.repo.commit.as_deref(), Some("3141b14"));
    assert!(report.repo.is_repo);
    assert_eq!(report.stats, result.stats);
    assert_eq!(report.findings.len(), 1);
    let finding = &report.findings[0];
    assert_eq!(finding.path, "src/main.rs");
    assert_eq!(finding.language, "rust");
    assert_eq!(finding.category, "TODO");
    assert_eq!(finding.line, 2);
    assert_eq!(finding.primary, 0);
    assert_eq!(finding.selection, 16..33);
    assert_eq!(finding.comments.len(), 1);
    assert_eq!(finding.comments[0].text, "// TODO: fix this");
    assert_eq!(finding.context.len(), 2);
    assert_eq!(finding.context[0].kind, LineKind::Before);
    assert_eq!(finding.context[1].kind, LineKind::Selected);
}

#[test]
fn scans_without_matches_find_nothing() {
    let result = Scanner::new(ScanOptions::default())
        .unwrap()
        .scan(
            "/repo",
            vec![FileEntry {
                path: "/repo/a.rs".into(),
                content: Ok("fn main() {}\n".as_bytes().to_vec()),
            }],
        )
        .unwrap();
    assert!(result.findings.is_empty());
}

#[test]
fn a_selection_need_not_hold_the_match() {
    let source = "// TODO: a\n// note\n";
    let mut result = Scanner::new(ScanOptions::default())
        .unwrap()
        .scan(
            "/repo",
            vec![FileEntry {
                path: "/repo/a.rs".into(),
                content: Ok(source.as_bytes().to_vec()),
            }],
        )
        .unwrap();
    result.findings[0].selection.start = 1;
    let text = render_finding(&result.findings[0], &context(0, 0), source, &[], false);
    assert_eq!(text, "a.rs:1: TODO\n > 2 │ // note\n\n");
    let report = build_report(&result, &context(0, 0), &vec![Some(source.to_string())]);
    assert_eq!(report.findings[0].selection, 11..18);
    assert_eq!(report.findings[0].line, 1);
}
