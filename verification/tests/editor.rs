use todone::config::EditorConfig;
use todone::draft::{render_draft, ContextSnippet, IssueDraft, TITLE_PLACEHOLDER};
use todone::editor::{
    draft_outcome, run_step, Attempt, DraftOutcome, Editor, RunStep, ViewPlan, MAX_ATTEMPTS,
};

fn draft() -> IssueDraft {
    IssueDraft {
        category: "TODO".into(),
        path: "src/lib.rs".into(),
        commit: "abc".into(),
        title: "Fix it".into(),
        description: "Broken.".into(),
    }
}

fn snippet() -> ContextSnippet {
    ContextSnippet {
        language: "rust".into(),
        text: "fn main() {}\n".into(),
    }
}

fn editor(command: &str) -> Editor {
    Editor {
        command: vec![command.to_string()],
    }
}

#[test]
fn editor_resolves_from_editor_env() {
    let config = EditorConfig { command: None };
    let editor = Editor::resolve(&config, Some("code --wait".into()));
    assert_eq!(editor.command, vec!["code", "--wait"]);
    assert!(!editor.supports_vim_flags());
}

#[test]
fn config_overrides_editor_env() {
    let config = EditorConfig {
        command: Some("nvim".into()),
    };
    let editor = Editor::resolve(&config, Some("emacs".into()));
    assert_eq!(editor.command, vec!["nvim"]);
    assert!(editor.supports_vim_flags());
}

#[test]
fn defaults_to_nvim() {
    let editor = Editor::resolve(&EditorConfig { command: None }, None);
    assert_eq!(editor.command, vec!["nvim"]);
    assert!(editor.supports_vim_flags());
}

#[test]
fn edit_file_missing_path_errors() {
    let editor = Editor::resolve(&EditorConfig { command: None }, None);
    let err = editor.edit_file("/nonexistent/xyz", false).unwrap_err();
    assert!(err.contains("does not exist"));
    assert_eq!(editor.edit_file("/tmp/a.md", true).unwrap(), vec!["/tmp/a.md"]);
}

#[test]
fn view_readonly_passes_vim_flags() {
    let editor = editor("/tmp/x/fakevim");
    assert!(editor.supports_vim_flags());
    assert_eq!(
        editor.view_readonly("/tmp/x", "a.rs", 3),
        ViewPlan::Direct {
            args: vec!["-R".into(), "+3".into(), "/tmp/x/a.rs".into()],
        }
    );
}

#[test]
fn view_readonly_copy_keeps_the_original_extension() {
    let editor = editor("/tmp/x/fakeeditor");
    assert!(!editor.supports_vim_flags());
    assert_eq!(
        editor.view_readonly("/tmp/x", "lib.py", 1),
        ViewPlan::Copy {
            suffix: ".py".into(),
        }
    );
    assert_eq!(
        editor.view_readonly("/tmp/x", "Makefile", 1),
        ViewPlan::Copy {
            suffix: String::new(),
        }
    );
}

#[test]
fn edit_draft_round_trip() {
    let edited = render_draft(&draft(), &snippet())
        .replace("# Title: Fix it", "# Title: Ported from review");
    let DraftOutcome::Drafted(parsed) = draft_outcome(&draft(), &snippet(), &edited).unwrap() else {
        panic!("expected a draft");
    };
    assert_eq!(parsed.title, "Ported from review");
    assert_eq!(parsed.category, "TODO");
}

#[test]
fn edit_draft_unchanged_is_aborted() {
    let rendered = render_draft(&draft(), &snippet());
    assert_eq!(
        draft_outcome(&draft(), &snippet(), &rendered).unwrap(),
        DraftOutcome::Aborted
    );
}

#[test]
fn a_placeholder_title_is_aborted() {
    let edited = render_draft(&draft(), &snippet()).replace("Fix it", TITLE_PLACEHOLDER);
    assert_eq!(
        draft_outcome(&draft(), &snippet(), &edited).unwrap(),
        DraftOutcome::Aborted
    );
}

#[test]
fn edit_draft_reports_editor_failures() {
    let outcome = Attempt::Exited {
        success: false,
        status: "exit status: 4".into(),
    };
    let RunStep::Fail(err) = run_step("fail.sh", 0, &outcome) else {
        panic!("expected a failure");
    };
    assert!(err.contains("exited with"), "{err}");
    assert_eq!(err, "editor `fail.sh` exited with exit status: 4");
}

#[test]
fn edit_draft_reports_corrupted_templates() {
    let err = draft_outcome(&draft(), &snippet(), "this is no template\n").unwrap_err();
    assert!(err.contains("cannot decode"), "{err}");
}

#[test]
fn busy_editors_are_retried() {
    let busy = Attempt::Failed { busy: true };
    for attempt in 0..MAX_ATTEMPTS - 1 {
        assert_eq!(run_step("vi", attempt, &busy), RunStep::Retry);
    }
    assert_eq!(
        run_step("vi", MAX_ATTEMPTS - 1, &busy),
        RunStep::Fail("failed to run editor `vi`".into())
    );
    assert_eq!(
        run_step("vi", 0, &Attempt::Failed { busy: false }),
        RunStep::Fail("failed to run editor `vi`".into())
    );
    let done = Attempt::Exited {
        success: true,
        status: "exit status: 0".into(),
    };
    assert_eq!(run_step("vi", 0, &done), RunStep::Done);
}

#[test]
fn vim_family_is_told_by_the_stem() {
    assert!(editor("/usr/bin/GVIM.exe").supports_vim_flags());
    assert!(editor("vimdiff").supports_vim_flags());
    assert!(!editor("/opt/vim/code").supports_vim_flags());
    assert!(!Editor { command: vec![] }.supports_vim_flags());
}

#[test]
fn fixed_arguments_come_first() {
    let editor = Editor::resolve(&EditorConfig { command: None }, Some("  code   --wait ".into()));
    let (program, args) = editor.invocation(&vec!["a.md".to_string()]);
    assert_eq!(program, "code");
    assert_eq!(args, vec!["--wait", "a.md"]);
}
