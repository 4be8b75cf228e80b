use todone::highlight::{query_set, spans_from_marks, HighlightEngine, HighlightError, Mark, THEME};
use todone::language::ALL;

#[test]
fn highlights_rust_comments() {
    let mut engine = HighlightEngine::new();
    let source = "// TODO: fix me\nfn main() {\n    let x = 1;\n}\n";
    let spans = engine.highlight("rust", source).unwrap();
    assert!(!spans.is_empty());
    for span in &spans {
        assert!(span.range.start <= span.range.end);
        assert!(span.range.end <= source.len());
    }
    assert!(spans.iter().any(|s| s.fg.is_some()));
    // The comment is styled italic.
    assert!(spans.iter().any(|s| s.italic));
}

#[test]
fn unknown_language_errors() {
    let mut engine = HighlightEngine::new();
    assert!(matches!(
        engine.highlight("lisp", "x").unwrap_err(),
        HighlightError::NoQueries(_)
    ));
}

#[test]
fn spans_cover_only_source_bounds() {
    let mut engine = HighlightEngine::new();
    let source = "let a = 1;\nlet b = 2;\n";
    let spans = engine.highlight("typescript", source).unwrap();
    assert!(spans.iter().all(|s| s.range.end <= source.len()));
}

#[test]
fn all_languages_have_vendored_queries() {
    for lang in ALL {
        assert!(
            query_set(lang.language().id).is_some(),
            "missing queries for {}",
            lang.language().id
        );
    }
}

#[test]
fn every_language_highlights() {
    let mut engine = HighlightEngine::new();
    for lang in ALL {
        let id = lang.language().id;
        let spans = engine.highlight(id, "1\n").unwrap();
        assert!(spans.iter().all(|s| s.range.end <= 2), "{id}");
    }
}

#[test]
fn configurations_are_reused() {
    let mut engine = HighlightEngine::new();
    let first = engine.highlight("rust", "// x\n").unwrap();
    let again = engine.highlight("rust", "// x\n").unwrap();
    assert_eq!(first, again);
}

#[test]
fn unknown_languages_have_no_queries() {
    assert!(query_set("lisp").is_none());
    let err = HighlightEngine::new().highlight("lisp", "x").unwrap_err();
    assert!(err.message().contains("lisp"));
}

#[test]
fn no_marks_make_no_spans() {
    assert!(spans_from_marks(&Vec::<Mark>::new()).is_empty());
}

#[test]
fn marks_become_themed_spans() {
    let comment = THEME.iter().position(|t| t.0 == "comment").unwrap();
    let marks = vec![
        Mark::Source { start: 0, end: 2 },
        Mark::Start(comment),
        Mark::Source { start: 2, end: 5 },
        Mark::End,
    ];
    let spans = spans_from_marks(&marks);
    let span = spans.iter().find(|s| s.range == (2..5)).unwrap();
    assert_eq!(span.fg, Some(THEME[comment].1));
    assert!(span.italic);
}

#[test]
fn cpp_raw_strings_are_highlighted() {
    let mut engine = HighlightEngine::new();
    let source = "auto s = R\"json({})json\"; // TODO\n";
    let spans = engine.highlight("cpp", source).unwrap();
    assert!(!spans.is_empty());
    assert!(spans.iter().all(|s| s.range.end <= source.len()));
}
