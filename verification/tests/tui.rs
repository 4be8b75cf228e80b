use todone::config::Config;
use todone::draft::IssueDraft;
use todone::editor::DraftOutcome;
use todone::highlight::{HighlightEngine, HighlightSpan};
use todone::model::{Comment, CommentRun, Finding, Selection};
use todone::repo::no_repo;
use todone::run::ScanContext;
use todone::session::{Decision, Session};
use todone::tui::{spans_of, AppAction, Key, Mode, PortApp, UiRequest, HELP};

fn comment(line: usize, end_line: usize, text: &str) -> Comment {
    Comment {
        path: "src/a.rs".into(),
        line,
        end_line,
        column: 0,
        byte_range: 0..13,
        text: text.into(),
        language: "rust".into(),
    }
}

fn finding(line: usize, end_line: usize) -> Finding {
    Finding {
        run: CommentRun {
            comments: vec![comment(line, end_line, "// TODO: x")],
        },
        category: "TODO".into(),
        primary: 0,
        selection: Selection::full(1),
    }
}

fn app_over(findings: Vec<Finding>) -> PortApp {
    let sources = findings.iter().map(|_| "// TODO: x\n".to_string()).collect();
    let ctx = ScanContext {
        config: Config::defaults(),
        repo: no_repo("/repo".into()),
    };
    PortApp::new(Session::new(findings, "abc".into()), &ctx, sources)
}

fn with_text(text: &str) -> PortApp {
    let mut f = finding(1, 1);
    f.run.comments[0].text = text.into();
    app_over(vec![f])
}

#[test]
fn review_screen_renders_finding() {
    let app = app_over(vec![finding(1, 1)]);

    // The context window itself must contain the comment text.
    let rendered_lines = app.styled_context(&[]);
    assert_eq!(rendered_lines.len(), 1, "expected one context line");
    let text: String = rendered_lines[0].chars.iter().map(|c| c.ch).collect();
    assert!(text.contains("// TODO: x"), "comment missing: {text:?}");

    let header = app.header_title().unwrap();
    assert!(header.contains("1/1"), "header missing: {header}");
    assert!(header.contains("src/a.rs:1: TODO"), "path missing: {header}");
    assert_eq!(header, " 1/1 — src/a.rs:1: TODO");
    assert_eq!(app.header_count(), "  (1 undecided)");
}

#[test]
fn keys_make_decisions_and_navigate() {
    let mut app = app_over(vec![finding(1, 1), finding(2, 2)]);
    assert_eq!(app.handle_key(Key::Char('s')), AppAction::Continue);
    assert_eq!(*app.session.decision(0).unwrap(), Decision::Skip);
    assert_eq!(app.session.cursor(), 1);
    assert_eq!(app.handle_key(Key::Down), AppAction::Continue);
    assert_eq!(app.session.cursor(), 1);
    assert_eq!(app.handle_key(Key::Char('q')), AppAction::Quit);
}

#[test]
fn deciding_everything_leads_to_confirm() {
    let mut app = app_over(vec![finding(1, 1), finding(2, 2)]);
    app.handle_key(Key::Char('s'));
    app.handle_key(Key::Char('s'));
    assert_eq!(app.mode, Mode::Confirm);
    assert_eq!(app.handle_key(Key::Char('y')), AppAction::Execute);
}

#[test]
fn confirm_screen_lists_decisions() {
    let mut app = app_over(vec![finding(1, 1), finding(2, 2), finding(3, 3)]);
    app.session.set_decision(0, Decision::Skip);
    app.session.set_decision(1, Decision::Delete);
    app.mode = Mode::Confirm;

    let rows = app.confirm_rows();
    let actions: Vec<_> = rows.iter().map(|r| r.action).collect();
    assert_eq!(actions, vec!["skip", "delete", "undecided"]);
    assert_eq!(rows[1].number, 2);
    assert_eq!(rows[1].path, "src/a.rs");
    assert_eq!(rows[1].category, "TODO");
    assert_eq!(rows[1].title, "");
    assert_eq!(app.confirm_footer(), "y execute · b back · q quit");
    app.dry_run = true;
    assert!(app.confirm_footer().starts_with("dry run"));
}

#[test]
fn selection_editing_updates_the_range() {
    let f = Finding {
        run: CommentRun {
            comments: vec![
                Comment {
                    path: "a.rs".into(),
                    line: 1,
                    end_line: 1,
                    column: 0,
                    byte_range: 0..9,
                    text: "// TODO: a".into(),
                    language: "rust".into(),
                },
                Comment {
                    path: "a.rs".into(),
                    line: 2,
                    end_line: 2,
                    column: 0,
                    byte_range: 10..24,
                    text: "// note: b".into(),
                    language: "rust".into(),
                },
            ],
        },
        category: "TODO".into(),
        primary: 0,
        selection: Selection::full(2),
    };
    let mut app = app_over(vec![f]);
    app.mode = Mode::SelectionEdit;
    app.handle_key(Key::Left);
    let sel = app.current().unwrap().selection;
    assert_eq!((sel.start, sel.end), (0, 0));
    assert_eq!(app.contexts[0].selection, 0..9);
    app.handle_key(Key::Left);
    let sel = app.current().unwrap().selection;
    assert_eq!((sel.start, sel.end), (0, 0));
    app.handle_key(Key::Right);
    let sel = app.current().unwrap().selection;
    assert_eq!((sel.start, sel.end), (0, 1));
    assert_eq!(app.contexts[0].selection, 0..24);
    app.handle_key(Key::Char('r'));
    let sel = app.current().unwrap().selection;
    assert_eq!((sel.start, sel.end), (0, 1));
    app.handle_key(Key::Esc);
    assert_eq!(app.mode, Mode::Review);
}

#[test]
fn help_swallows_other_keys() {
    let mut app = app_over(vec![finding(1, 1)]);
    app.handle_key(Key::Char('?'));
    assert!(app.show_help);
    assert_eq!(app.handle_key(Key::Char('d')), AppAction::Continue);
    assert!(app.session.decision(0).is_none());
    assert_eq!(app.handle_key(Key::Char('q')), AppAction::Continue);
    assert!(!app.show_help);
    assert_eq!(HELP.len(), 12);
    assert!(HELP[8].starts_with("q  quit"));
}

#[test]
fn nothing_executes_unconfirmed() {
    let mut app = app_over(vec![finding(1, 1), finding(2, 2)]);
    for key in [
        Key::Char('s'),
        Key::Char('x'),
        Key::Char('d'),
        Key::Char('e'),
        Key::Esc,
        Key::Char('c'),
        Key::Char('b'),
        Key::Other,
    ] {
        assert_ne!(app.handle_key(key), AppAction::Execute);
    }
}

#[test]
fn clearing_takes_a_decision_back() {
    let mut app = app_over(vec![finding(1, 1), finding(2, 2)]);
    app.handle_key(Key::Char('d'));
    app.handle_key(Key::Up);
    app.handle_key(Key::Char('x'));
    assert!(app.session.decision(0).is_none());
    assert_eq!(app.message.as_deref(), Some("decision cleared"));
    assert!(app.footer_text().starts_with("decision cleared  —  p port"));
}

#[test]
fn auto_confirm_skips_the_confirm_screen() {
    let mut app = app_over(vec![finding(1, 1)]);
    app.auto_confirm = true;
    assert_eq!(app.handle_key(Key::Char('d')), AppAction::Execute);
    assert_eq!(app.mode, Mode::Review);
    assert_eq!(app.handle_key(Key::Char('q')), AppAction::Execute);
}

#[test]
fn drafts_are_prefilled_from_the_comment() {
    let app = with_text("// TODO: x  \n// more\n");
    let draft = app.prefilled_draft().unwrap();
    assert_eq!(draft.category, "TODO");
    assert_eq!(draft.path, "src/a.rs");
    assert_eq!(draft.commit, "abc");
    assert_eq!(draft.title, "// TODO: x");
    assert_eq!(
        draft.description,
        "Ported from `src/a.rs:1`\n\n```\n// TODO: x  \n// more\n```\n"
    );
    let snippet = app.current_snippet().unwrap();
    assert_eq!(snippet.language, "rust");
    assert_eq!(snippet.text, "// TODO: x");
}

#[test]
fn long_titles_are_cut() {
    let exact = "a".repeat(72);
    assert_eq!(with_text(&exact).prefilled_draft().unwrap().title, exact);
    let long = "b".repeat(73);
    assert_eq!(
        with_text(&long).prefilled_draft().unwrap().title,
        format!("{}...", "b".repeat(72))
    );
    let wide = format!("{}é{}", "c".repeat(71), "d".repeat(9));
    assert_eq!(
        with_text(&wide).prefilled_draft().unwrap().title,
        format!("{}...", "c".repeat(71))
    );
}

#[test]
fn an_empty_comment_has_nothing_to_port() {
    let mut app = with_text("");
    assert!(app.prefilled_draft().is_none());
    assert_eq!(app.press(Key::Char('p')), UiRequest::Redraw);
    assert_eq!(app.message.as_deref(), Some("nothing to port here"));
}

#[test]
fn presses_start_editor_sessions() {
    let mut app = app_over(vec![finding(1, 1)]);
    let UiRequest::Edit { draft, snippet } = app.press(Key::Char('p')) else {
        panic!("expected an editor session");
    };
    assert_eq!(draft.title, "// TODO: x");
    assert_eq!(snippet.language, "rust");
    assert_eq!(
        app.press(Key::Char('o')),
        UiRequest::Open {
            path: "src/a.rs".into(),
            line: 1,
        }
    );
    assert_eq!(app.press(Key::Char('j')), UiRequest::Redraw);
    assert_eq!(app.press(Key::Char('q')), UiRequest::Quit);
    app.mode = Mode::Confirm;
    assert_eq!(app.press(Key::Char('y')), UiRequest::Execute);
}

#[test]
fn finished_sessions_leave_messages() {
    let mut app = app_over(vec![finding(1, 1)]);
    app.finish_edit(DraftOutcome::Aborted);
    assert_eq!(
        app.message.as_deref(),
        Some("draft aborted; nothing changed")
    );
    assert!(app.session.decision(0).is_none());
    let draft = IssueDraft {
        category: "TODO".into(),
        path: "src/a.rs".into(),
        commit: "abc".into(),
        title: "T".into(),
        description: "D".into(),
    };
    app.finish_edit(DraftOutcome::Drafted(draft.clone()));
    assert_eq!(app.session.decision(0), Some(&Decision::Port(draft)));
    assert_eq!(app.header_title().unwrap(), " 1/1 — src/a.rs:1: TODO [port]");
    app.finish_view(None);
    assert_eq!(app.message.as_deref(), Some("read-only view closed"));
    app.finish_view(Some("boom".into()));
    assert_eq!(app.message.as_deref(), Some("editor failed: boom"));
}

#[test]
fn empty_sessions_are_safe() {
    let mut app = app_over(vec![]);
    for key in [
        Key::Char('s'),
        Key::Char('x'),
        Key::Left,
        Key::Down,
        Key::Char('o'),
        Key::Char('p'),
    ] {
        app.press(key);
    }
    assert!(app.header_title().is_none());
    assert!(app.styled_context(&[]).is_empty());
    assert!(app.confirm_rows().is_empty());
    assert!(app.current_snippet().is_none());
}

#[test]
fn characters_are_styled_by_span_and_selection() {
    let mut f = finding(1, 1);
    f.run.comments[0].byte_range = 0..2;
    let app = app_over(vec![f]);
    let spans = vec![HighlightSpan {
        range: 1..4,
        fg: Some((1, 2, 3)),
        bold: false,
        italic: true,
    }];
    let line = &app.styled_context(&spans)[0];
    assert_eq!(line.gutter, " > 1 │ ");
    assert_eq!(line.chars[0].fg, None);
    assert!(line.chars[0].selected && !line.chars[0].italic);
    assert_eq!(line.chars[1].fg, Some((1, 2, 3)));
    assert!(line.chars[1].selected && line.chars[1].italic);
    assert!(!line.chars[2].selected && line.chars[2].italic);
}

#[test]
fn unknown_languages_have_no_spans() {
    let mut engine = HighlightEngine::new();
    assert!(spans_of(&mut engine, "lisp", "(x)").is_empty());
    assert!(!spans_of(&mut engine, "rust", "// x\n").is_empty());
}

#[test]
fn wrapping_follows_the_configuration() {
    let mut app = app_over(vec![finding(1, 1)]);
    assert_eq!(app.root, "/repo");
    assert_eq!(app.context_lines, (3, 3));
    assert!(app.wrap);
    app.handle_key(Key::Char('w'));
    assert!(!app.wrap);
    app.handle_key(Key::Char('w'));
    assert!(app.wrap);
}
