use todone::draft::IssueDraft;
use todone::model::{Comment, CommentRun, Finding, Selection};
use todone::session::{Decision, Session};
use std::ops::Range;

fn finding(line: usize) -> Finding {
    Finding {
        run: CommentRun {
            comments: vec![Comment {
                path: "a.rs".into(),
                line,
                end_line: line,
                column: 0,
                byte_range: Range { start: 0, end: 10 },
                text: "// TODO: x".into(),
                language: "rust".into(),
            }],
        },
        category: "TODO".into(),
        primary: 0,
        selection: Selection::full(1),
    }
}

fn draft(title: &str) -> IssueDraft {
    IssueDraft {
        category: "TODO".into(),
        path: "a.rs".into(),
        commit: "abc".into(),
        title: title.into(),
        description: "d".into(),
    }
}

#[test]
fn navigation_clamps() {
    let mut session = Session::new(vec![finding(1), finding(2), finding(3)], "abc".into());
    assert_eq!(session.cursor(), 0);
    session.navigate(1);
    assert_eq!(session.cursor(), 1);
    session.navigate(10);
    assert_eq!(session.cursor(), 2);
    session.navigate(-10);
    assert_eq!(session.cursor(), 0);
    session.goto(99);
    assert_eq!(session.cursor(), 2);
}

#[test]
fn empty_session_navigation_is_safe() {
    let mut session = Session::new(vec![], "abc".into());
    assert!(session.is_empty());
    assert!(session.current().is_none());
    session.navigate(3);
    assert_eq!(session.cursor(), 0);
    assert!(!session.next_undecided());
}

#[test]
fn decisions_are_recorded_and_listed() {
    let mut session = Session::new(vec![finding(1), finding(2), finding(3)], "abc".into());
    assert!(!session.all_decided());
    assert_eq!(session.undecided_count(), 3);

    session.set_decision(0, Decision::Skip);
    session.set_decision(1, Decision::Delete);
    session.set_decision(2, Decision::Port(draft("t")));
    assert!(session.all_decided());
    assert_eq!(session.ports(), vec![2]);
    assert_eq!(session.deletes(), vec![1]);
    assert_eq!(session.draft_tasks().len(), 1);
    assert_eq!(session.decision(0).unwrap().label(), "skip");
    assert_eq!(session.decision(1).unwrap().label(), "delete");
    assert_eq!(session.decision(2).unwrap().label(), "port");
}

#[test]
fn replacing_a_decision() {
    let mut session = Session::new(vec![finding(1)], "abc".into());
    session.set_decision(0, Decision::Skip);
    session.set_decision(0, Decision::Delete);
    assert_eq!(session.decision(0).unwrap(), &Decision::Delete);
}

#[test]
fn next_undecided_skips_decided() {
    let mut session = Session::new(vec![finding(1), finding(2), finding(3)], "abc".into());
    session.set_decision(0, Decision::Skip);
    session.set_decision(2, Decision::Skip);
    assert!(session.next_undecided());
    assert_eq!(session.cursor(), 1);
    session.set_decision(1, Decision::Skip);
    assert!(!session.next_undecided());
}

#[test]
fn items_pair_findings_with_decisions() {
    let mut session = Session::new(vec![finding(1), finding(2)], "abc".into());
    session.set_decision(1, Decision::Skip);
    let items = session.items();
    assert_eq!(items.len(), 2);
    assert!(items[0].decision.is_none());
    assert_eq!(items[1].decision.as_ref().unwrap().label(), "skip");
}

#[test]
fn next_undecided_goes_round() {
    let mut session = Session::new(vec![finding(1), finding(2), finding(3)], "abc".into());
    session.goto(2);
    session.set_decision(2, Decision::Delete);
    assert!(session.next_undecided());
    assert_eq!(session.cursor(), 0);
    assert!(session.next_undecided());
    assert_eq!(session.cursor(), 1);
}

#[test]
fn all_decided_means_none_undecided() {
    let mut session = Session::new(vec![finding(1), finding(2)], "abc".into());
    session.set_decision(0, Decision::Skip);
    assert_eq!(session.undecided_count(), 1);
    assert!(!session.all_decided());
    session.set_decision(1, Decision::Skip);
    assert_eq!(session.undecided_count(), 0);
    assert!(session.all_decided());
    session.clear_decision(1);
    assert_eq!(session.undecided_count(), 1);
    assert!(session.decision(1).is_none());
}

#[test]
fn out_of_range_decisions_are_ignored() {
    let mut session = Session::new(vec![finding(1)], "abc".into());
    session.set_decision(7, Decision::Skip);
    assert!(session.decision(7).is_none());
    assert!(session.decision(0).is_none());
    session.set_current_decision(Decision::Delete);
    assert_eq!(session.current_decision(), Some(&Decision::Delete));
}

#[test]
fn draft_tasks_name_their_findings() {
    let mut session = Session::new(vec![finding(1), finding(2), finding(3)], "abc".into());
    session.set_decision(0, Decision::Port(draft("first")));
    session.set_decision(2, Decision::Port(draft("last")));
    let tasks = session.draft_tasks();
    assert_eq!(tasks.len(), 2);
    assert_eq!((tasks[0].0, tasks[0].1.title.as_str()), (0, "first"));
    assert_eq!((tasks[1].0, tasks[1].1.title.as_str()), (2, "last"));
    assert_eq!(session.ports(), vec![0, 2]);
}
