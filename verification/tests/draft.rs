use todone::draft::{
    decode_draft, is_placeholder_title, parse_draft, render_draft, split_draft, ContextSnippet,
    DraftError, Frontmatter, IssueDraft, TomlField, DESCRIPTION_PLACEHOLDER, TITLE_PLACEHOLDER,
};

fn draft() -> IssueDraft {
    IssueDraft {
        category: "TODO".into(),
        path: "src/lib.rs".into(),
        commit: "abc123".into(),
        title: "Fix the bug".into(),
        description: "It crashes on empty input.".into(),
    }
}

fn snippet() -> ContextSnippet {
    ContextSnippet {
        language: "rust".into(),
        text: "fn main() { // TODO: crash\n".into(),
    }
}

#[test]
fn render_parse_round_trip() {
    let rendered = render_draft(&draft(), &snippet());
    assert_eq!(parse_draft(&rendered).unwrap(), draft());
}

#[test]
fn crlf_draft_parses() {
    let rendered = render_draft(&draft(), &snippet()).replace('\n', "\r\n");
    assert_eq!(parse_draft(&rendered).unwrap(), draft());
}

#[test]
fn description_may_contain_markdown_and_fences() {
    let mut d = draft();
    d.description = "```rust\nlet x = 1;\n```\n\n- bullet".into();
    let rendered = render_draft(&d, &snippet());
    let parsed = parse_draft(&rendered).unwrap();
    assert_eq!(parsed.description, d.description);
    assert!(parsed.description.contains("```rust"));
}

#[test]
fn context_section_is_ignored_on_parse() {
    let rendered = render_draft(&draft(), &snippet());
    let parsed = parse_draft(&rendered).unwrap();
    assert!(!parsed.description.contains("fn main"));
}

#[test]
fn title_without_space_after_marker_parses() {
    let content = render_draft(&draft(), &snippet()).replace("# Title: Fix", "# Title:Fix");
    assert_eq!(parse_draft(&content).unwrap().title, "Fix the bug");
}

#[test]
fn errors() {
    assert!(matches!(
        parse_draft("no frontmatter").unwrap_err(),
        DraftError::NoFrontmatter
    ));
    let mut content = render_draft(&draft(), &snippet());
    assert!(matches!(
        parse_draft(&content.replace("---\n", "")).unwrap_err(),
        DraftError::NoFrontmatter
    ));

    content = render_draft(&draft(), &snippet()).replace("version = 1", "version = 99");
    assert!(matches!(
        parse_draft(&content).unwrap_err(),
        DraftError::UnknownToolOrVersion
    ));

    content =
        render_draft(&draft(), &snippet()).replace("tool = \"todone\"", "tool = \"other\"");
    assert!(matches!(
        parse_draft(&content).unwrap_err(),
        DraftError::UnknownToolOrVersion
    ));

    content = render_draft(&draft(), &snippet()).replace("# Title: Fix the bug", "");
    assert!(matches!(
        parse_draft(&content).unwrap_err(),
        DraftError::NoTitle
    ));

    content = render_draft(&draft(), &snippet()).replace("## Description", "## Notes");
    assert!(matches!(
        parse_draft(&content).unwrap_err(),
        DraftError::NoDescription
    ));

    let mut d = draft();
    d.title = TITLE_PLACEHOLDER.into();
    content = render_draft(&d, &snippet());
    assert!(matches!(
        parse_draft(&content).unwrap_err(),
        DraftError::PlaceholderTitle
    ));
}

#[test]
fn placeholders_detected() {
    assert!(is_placeholder_title(TITLE_PLACEHOLDER));
    assert!(!is_placeholder_title("Real title"));
}

#[test]
fn template_is_exact() {
    let d = IssueDraft {
        category: "TODO".into(),
        path: "crates/todone-cli/src/cli.rs".into(),
        commit: "3141b14".into(),
        title: TITLE_PLACEHOLDER.into(),
        description: DESCRIPTION_PLACEHOLDER.into(),
    };
    let s = ContextSnippet {
        language: "rust".into(),
        text: "/// Triage TODO comments: scan, review, and port them to your forge.".into(),
    };
    assert_eq!(
        render_draft(&d, &s),
        "---\ntool = \"todone\"\nversion = 1\ncategory = \"TODO\"\n\
         path = \"crates/todone-cli/src/cli.rs\"\ncommit = \"3141b14\"\n---\n\
         # Title: <write title here>\n\n## Context\n```rust\n\
         /// Triage TODO comments: scan, review, and port them to your forge.\n```\n\n\
         ## Description\n<write the issue description here>\n"
    );
}

#[test]
fn broken_frontmatter_is_reported() {
    let content = render_draft(&draft(), &snippet()).replace("version = 1", "version = = 1");
    let err = parse_draft(&content).unwrap_err();
    assert!(matches!(err, DraftError::InvalidFrontmatter(_)));
    assert!(err.message().starts_with("frontmatter is not valid: "));
}

#[test]
fn missing_fields_are_named() {
    for field in ["tool", "version", "category", "path", "commit"] {
        let content = render_draft(&draft(), &snippet())
            .replace(&format!("\n{field} = "), &format!("\nother_{field} = "));
        let err = parse_draft(&content).unwrap_err();
        assert_eq!(err, DraftError::MissingField(field));
        assert_eq!(
            err.message(),
            format!("frontmatter is missing the `{field}` field")
        );
    }
}

#[test]
fn fields_of_the_wrong_type_are_missing() {
    let content = render_draft(&draft(), &snippet()).replace("category = \"TODO\"", "category = 3");
    assert_eq!(
        parse_draft(&content).unwrap_err(),
        DraftError::MissingField("category")
    );
}

#[test]
fn frontmatter_and_body_are_split() {
    let (front, body) = split_draft("---\na = 1\n---\nbody\n").unwrap();
    assert_eq!(front.trim(), "a = 1");
    assert_eq!(body.trim(), "body");
    assert!(split_draft("a = 1\n---\nbody\n").is_none());
}

#[test]
fn decoding_takes_the_fields_it_is_given() {
    let fields = Frontmatter {
        tool: TomlField::Text("todone".into()),
        version: TomlField::Integer(1),
        category: TomlField::Text("FIXME".into()),
        path: TomlField::Text("a/b.c".into()),
        commit: TomlField::Text("f00".into()),
    };
    let d = decode_draft(&fields, "# Title: T\n\n## Description\n  d \n").unwrap();
    assert_eq!(d.category, "FIXME");
    assert_eq!(d.path, "a/b.c");
    assert_eq!(d.commit, "f00");
    assert_eq!(d.title, "T");
    assert_eq!(d.description, "d");
}

#[test]
fn error_messages_say_what_to_keep() {
    assert_eq!(
        DraftError::NoFrontmatter.message(),
        "missing frontmatter block; keep the --- section at the top of the file"
    );
    assert_eq!(
        DraftError::UnknownToolOrVersion.message(),
        "frontmatter must declare tool = \"todone\" and version = 1"
    );
    assert_eq!(DraftError::NoTitle.message(), "missing `# Title:` line");
    assert_eq!(
        DraftError::NoDescription.message(),
        "missing `## Description` section"
    );
}

#[test]
fn the_context_may_hold_the_heading() {
    for text in [
        "## Description\n",
        "# Title: other\n## Description\nx\n",
        "```\n## Description\n",
        "## Context\n```\n## Description\n",
    ] {
        let s = ContextSnippet {
            language: "bash".into(),
            text: text.into(),
        };
        assert_eq!(parse_draft(&render_draft(&draft(), &s)), Ok(draft()), "{text}");
    }
    let mut d = draft();
    d.title = "Explain ## Description".into();
    assert_eq!(parse_draft(&render_draft(&d, &snippet())), Ok(d));
}

#[test]
fn the_heading_is_a_line_of_its_own() {
    let body = |b: &str| format!("---\ntool = \"todone\"\nversion = 1\ncategory = \"TODO\"\npath = \"a\"\ncommit = \"c\"\n---\n{b}");
    let description = |b: &str| parse_draft(&body(b)).map(|d| d.description);
    assert_eq!(
        description("# Title: t\nsee ## Description\n## Description\nreal\n"),
        Ok("real".to_string())
    );
    // Where no line starts with the heading, its first occurrence counts.
    assert_eq!(
        description("# Title: t\n  ## Description\nreal\n"),
        Ok("real".to_string())
    );
    assert_eq!(
        description("# Title: t\n### Description\nreal\n"),
        Ok("real".to_string())
    );
    assert_eq!(
        description("# Title: t\n### Description\na\n## Context\n```\n```\n"),
        Ok("a\n## Context\n```\n```".to_string())
    );
    assert_eq!(
        description("# Title: t\n## Context\n```\n // ## Description x\n```\n ## Description\nb\n"),
        Ok("b".to_string())
    );
    // Without a context section the first heading counts.
    assert_eq!(
        description("# Title: t\n## Description\na\n## Context\n```\n```\n## Description\nb\n"),
        Ok("a\n## Context\n```\n```\n## Description\nb".to_string())
    );
    // An edited context section ends at its first fence.
    assert_eq!(
        description("# Title: t\n## Context\n```rust\n## Description\n```\n## Description\nb\n"),
        Ok("b".to_string())
    );
    // An open fence hides nothing.
    assert_eq!(
        description("# Title: t\n## Context\n```rust\n## Description\nb\n"),
        Ok("b".to_string())
    );
    assert_eq!(
        description("# Title: t\n## Context\n```\n## Description\nb\n```\n"),
        Err(DraftError::NoDescription)
    );
}
