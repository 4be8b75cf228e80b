use todone::cli::{AutoDecision, CommonScanArgs, PortArgs};
use todone::forge::IssueCreated;
use todone::port::{
    auto_decide, check_repo, ending, opening, plan_text, report_text, Ending, Opening, Phase,
    PortOutcome, PortRequest, PortRun, NOTHING_FOUND,
};
use todone::remove::{FileSnapshot, RemoveError};
use todone::render::render_finding_header;
use todone::repo::{discover_repo, no_repo, resolve_scope};
use todone::scan::{FileEntry, ScanOptions, Scanner};
use todone::session::{Decision, Session};
use todone::tui::AppAction;

const MAIN: &str = "fn main() {\n    // TODO: fix this\n    // FIXME: and this\n}\n";
const LIB: &str = "def f():\n    # TODO: python todo\n    pass\n";

/// The files of a repository, by path.
struct Files(Vec<(String, Vec<u8>)>);

impl Files {
    fn fixture() -> Self {
        Files(vec![
            ("src/main.rs".into(), MAIN.as_bytes().to_vec()),
            ("lib.py".into(), LIB.as_bytes().to_vec()),
        ])
    }

    fn read(&self, path: &str) -> Vec<u8> {
        self.0.iter().find(|f| f.0 == path).unwrap().1.clone()
    }

    fn text(&self, path: &str) -> String {
        String::from_utf8(self.read(path)).unwrap()
    }

    fn write(&mut self, path: &str, bytes: &[u8]) {
        self.0.iter_mut().find(|f| f.0 == path).unwrap().1 = bytes.to_vec();
    }

    fn session(&self) -> (Session, Vec<FileSnapshot>) {
        let entries = self
            .0
            .iter()
            .map(|(path, bytes)| FileEntry {
                path: format!("/repo/{path}"),
                content: Ok(bytes.clone()),
            })
            .collect();
        let result = Scanner::new(ScanOptions::default())
            .unwrap()
            .scan("/repo", entries)
            .unwrap();
        let snapshots = result
            .findings
            .iter()
            .map(|f| FileSnapshot::capture(f.path(), &self.read(f.path())))
            .collect();
        (Session::new(result.findings, "abc".into()), snapshots)
    }
}

/// Answers every request of a run; issues are created by `issue`.
fn execute(
    run: &mut PortRun,
    files: &mut Files,
    mut issue: impl FnMut(usize) -> Result<IssueCreated, String>,
) -> Vec<String> {
    let mut log = Vec::new();
    loop {
        match run.step() {
            PortRequest::CreateIssue { index, draft } => {
                log.push(format!("create {index} {}", draft.title));
                run.issue_done(issue(index));
            }
            PortRequest::RemoveComment { index, path } => {
                log.push(format!("remove {index} {path}"));
                match run.remove_comment(&files.read(&path)) {
                    Ok(outcome) => {
                        files.write(&path, outcome.content.as_bytes());
                        run.removal_done(Ok(outcome.content.as_bytes()));
                    }
                    Err(err) => run.removal_done(Err(err.message())),
                }
            }
            PortRequest::Finished => return log,
        }
    }
}

fn created(index: usize) -> Result<IssueCreated, String> {
    Ok(IssueCreated {
        number: 40 + index as u64,
        url: format!("https://example.org/{index}"),
    })
}

#[test]
fn port_auto_skip_dry_run_prints_the_plan() {
    let files = Files::fixture();
    let (mut session, _) = files.session();
    auto_decide(&mut session, AutoDecision::Skip);
    let plan = plan_text(&session);
    assert!(plan.contains("skip"));
    assert!(plan.contains("src/main.rs"));
    assert_eq!(
        plan,
        "skip lib.py:2: TODO\nskip src/main.rs:2: TODO\nskip src/main.rs:3: FIXME\n"
    );
    // Nothing was touched.
    assert_eq!(files.text("src/main.rs"), MAIN);
}

#[test]
fn port_auto_delete_removes_comments() {
    let mut files = Files::fixture();
    let (mut session, snapshots) = files.session();
    auto_decide(&mut session, AutoDecision::Delete);
    let mut run = PortRun::new(session, snapshots);
    execute(&mut run, &mut files, |_| panic!("no issue is created"));
    assert!(run.outcomes.iter().all(|o| o.removed && o.action == "delete"));
    let report = report_text(&run.outcomes);
    assert!(report.contains("deleted comment"));
    assert!(report.contains("done"));
    assert_eq!(files.text("src/main.rs"), "fn main() {\n}\n");
    assert_eq!(files.text("lib.py"), "def f():\n    pass\n");
}

#[test]
fn issues_are_created_before_comments_go() {
    let mut files = Files::fixture();
    let (mut session, snapshots) = files.session();
    auto_decide(&mut session, AutoDecision::Port);
    let mut run = PortRun::new(session, snapshots);
    let log = execute(&mut run, &mut files, created);
    assert_eq!(
        log,
        vec![
            "create 2 // FIXME: and this",
            "remove 2 src/main.rs",
            "create 1 // TODO: fix this",
            "remove 1 src/main.rs",
            "create 0 # TODO: python todo",
            "remove 0 lib.py",
        ]
    );
    assert_eq!(files.text("src/main.rs"), "fn main() {\n}\n");
    assert_eq!(run.outcomes[1].issue.as_ref().unwrap().number, 41);
    assert_eq!(
        run.outcomes[1].message(),
        "created #41 https://example.org/1\ndeleted comment at src/main.rs:2\n"
    );
}

#[test]
fn a_failed_issue_keeps_the_comment() {
    let mut files = Files::fixture();
    let (mut session, snapshots) = files.session();
    auto_decide(&mut session, AutoDecision::Port);
    let mut run = PortRun::new(session, snapshots);
    let log = execute(&mut run, &mut files, |i| {
        if i == 1 {
            Err("not logged in".into())
        } else {
            created(i)
        }
    });
    assert!(!log.contains(&"remove 1 src/main.rs".to_string()));
    assert_eq!(
        files.text("src/main.rs"),
        "fn main() {\n    // TODO: fix this\n}\n"
    );
    assert!(!run.outcomes[1].removed);
    assert_eq!(run.outcomes[1].error.as_deref(), Some("not logged in"));
    assert_eq!(
        run.outcomes[1].message(),
        "kept comment at src/main.rs:2: not logged in\n"
    );
}

#[test]
fn edited_files_are_never_clobbered() {
    let mut files = Files::fixture();
    let (mut session, snapshots) = files.session();
    auto_decide(&mut session, AutoDecision::Port);
    files.write("lib.py", b"def g():\n    # TODO: python todo\n    pass\n");
    let mut run = PortRun::new(session, snapshots);
    execute(&mut run, &mut files, created);
    // The issue exists, the removal is skipped and reported.
    assert!(run.outcomes[0].issue.is_some());
    assert!(!run.outcomes[0].removed);
    assert!(run.outcomes[0]
        .error
        .as_deref()
        .unwrap()
        .contains("changed since it was scanned"));
    assert!(files.text("lib.py").starts_with("def g()"));
}

#[test]
fn skipped_and_undecided_findings_are_left_alone() {
    let mut files = Files::fixture();
    let (mut session, snapshots) = files.session();
    session.set_decision(1, Decision::Skip);
    session.set_decision(2, Decision::Delete);
    let mut run = PortRun::new(session, snapshots);
    let log = execute(&mut run, &mut files, |_| panic!("no issue is created"));
    assert_eq!(log, vec!["remove 2 src/main.rs"]);
    assert_eq!(files.text("lib.py"), LIB);
    assert_eq!(run.outcomes[0].action, "skip");
    assert_eq!(run.outcomes[0].message(), "skipped lib.py:2\n");
    assert_eq!(run.outcomes[1].action, "skip");
    assert_eq!(run.phase, Phase::Idle);
}

#[test]
fn requests_repeat_until_answered() {
    let files = Files::fixture();
    let (mut session, snapshots) = files.session();
    auto_decide(&mut session, AutoDecision::Port);
    let mut run = PortRun::new(session, snapshots);
    assert_eq!(run.step(), run.step());
    run.issue_done(created(2));
    assert_eq!(
        run.step(),
        PortRequest::RemoveComment {
            index: 2,
            path: "src/main.rs".into(),
        }
    );
    let err = run.remove_comment(b"other").unwrap_err();
    assert!(matches!(err, RemoveError::Changed { .. }));
}

#[test]
fn port_plans_show_titles() {
    let files = Files::fixture();
    let (mut session, _) = files.session();
    auto_decide(&mut session, AutoDecision::Port);
    assert!(plan_text(&session)
        .starts_with("port lib.py:2: TODO - # TODO: python todo\nport src/main.rs:2: TODO"));
}

#[test]
fn port_no_findings_is_a_no_op() {
    let files = Files(vec![("a.rs".into(), b"fn main() {}\n".to_vec())]);
    let (session, snapshots) = files.session();
    let args = port_args(Some(AutoDecision::Delete), false);
    assert_eq!(opening(&args, session.len()), Opening::NothingFound);
    assert!(NOTHING_FOUND.contains("no marker comments found"));
    let mut run = PortRun::new(session, snapshots);
    assert_eq!(run.step(), PortRequest::Finished);
    assert!(run.outcomes.is_empty());
    assert_eq!(files.text("a.rs"), "fn main() {}\n");
}

#[test]
fn port_outside_a_repo_errors_scan_works() {
    let err = check_repo(&no_repo("/tmp/x".into())).unwrap_err();
    assert!(err.contains("not in a git repository"));
    assert!(check_repo(&discover_repo(Some("/repo\n".into()), None, None).unwrap()).is_ok());

    let scope = resolve_scope("/tmp/x", &Ok(None), &vec![]).unwrap();
    assert!(scope.warnings.iter().any(|w| w.contains("no forge sink")));
    let files = Files(vec![("f.rs".into(), b"// TODO: x\n".to_vec())]);
    let (session, _) = files.session();
    let finding = session.current().unwrap();
    let header =
        render_finding_header(finding.path(), finding.line(), &finding.category, false);
    assert!(header.contains("f.rs:1: TODO"));
}

#[test]
fn port_skips_non_utf8_files() {
    let files = Files(vec![("bin.rs".into(), vec![0xff, 0xfe, 0x00, 0x01])]);
    let (session, _) = files.session();
    let args = port_args(Some(AutoDecision::Delete), false);
    assert_eq!(opening(&args, session.len()), Opening::NothingFound);
    assert!(NOTHING_FOUND.contains("no marker comments found"));
}

#[test]
fn outcomes_compare_by_content() {
    let outcome = |removed| PortOutcome {
        path: "a.rs".into(),
        line: 1,
        category: "TODO".into(),
        action: "delete",
        issue: None,
        removed,
        error: None,
    };
    assert_eq!(outcome(true), outcome(true));
    assert_ne!(outcome(true), outcome(false));
}

fn port_args(auto: Option<AutoDecision>, dry_run: bool) -> PortArgs {
    PortArgs {
        common: CommonScanArgs {
            after: None,
            before: None,
            pattern: None,
            match_pattern: None,
            case_sensitive: false,
            no_case_sensitive: false,
            require_space: false,
            no_space: false,
            require_colon: false,
            no_colon: false,
            wrap: false,
            no_wrap: false,
            exclude: vec![],
            max_file_bytes: None,
            paths: vec![],
        },
        dry_run,
        auto,
        yes: false,
        forge: None,
        editor: None,
    }
}

#[test]
fn ports_open_by_flags_and_findings() {
    let review = port_args(None, false);
    assert_eq!(opening(&review, 0), Opening::NothingFound);
    assert_eq!(opening(&review, 2), Opening::Review);
    let auto = port_args(Some(AutoDecision::Delete), false);
    assert_eq!(opening(&auto, 2), Opening::Decided(AutoDecision::Delete));
}

#[test]
fn dry_runs_and_left_reviews_change_nothing() {
    let dry = port_args(Some(AutoDecision::Delete), true);
    assert_eq!(ending(&dry, None), Ending::Planned);
    assert_eq!(ending(&dry, Some(AppAction::Execute)), Ending::Planned);
    let real = port_args(None, false);
    assert_eq!(ending(&real, Some(AppAction::Quit)), Ending::Left);
    assert_eq!(ending(&real, Some(AppAction::Execute)), Ending::Executed);
    assert_eq!(ending(&real, None), Ending::Executed);
}

#[test]
fn porting_keeps_code_between_comments() {
    let mut files = Files(vec![(
        "a.rs".into(),
        b"// TODO: a\nlet x = 1; // note\n".to_vec(),
    )]);
    let (mut session, snapshots) = files.session();
    assert_eq!(session.findings.len(), 1);
    assert_eq!(session.findings[0].selected_range(), 0..29);
    assert_eq!(session.findings[0].selected_ranges(), vec![0..10, 22..29]);
    auto_decide(&mut session, AutoDecision::Port);
    let mut run = PortRun::new(session, snapshots);
    execute(&mut run, &mut files, created);
    assert_eq!(files.text("a.rs"), "let x = 1;\n");
}

#[test]
fn porting_keeps_crlf_files_whole() {
    let mut files = Files(vec![(
        "a.rs".into(),
        b"// FIXME: a\r\n\r\nlet x = 1; // TODO: b\r\n".to_vec(),
    )]);
    let (mut session, snapshots) = files.session();
    assert_eq!(session.findings.len(), 2);
    auto_decide(&mut session, AutoDecision::Port);
    let mut run = PortRun::new(session, snapshots);
    execute(&mut run, &mut files, created);
    assert_eq!(files.text("a.rs"), "let x = 1;\r\n");
}
