use todone::matcher::{fill_pattern, pick_category, MatchConfig, MatchConfigError};

fn match_of(config: &MatchConfig, text: &str) -> Option<String> {
    config
        .compile()
        .unwrap()
        .match_category(text)
        .map(str::to_string)
}

#[test]
fn default_config_matches_common_forms() {
    let config = MatchConfig::default();
    assert_eq!(match_of(&config, "// TODO: fix this"), Some("TODO".into()));
    assert_eq!(match_of(&config, "// TODO fix this"), Some("TODO".into()));
    assert_eq!(match_of(&config, "// FIXME: broken"), Some("FIXME".into()));
    assert_eq!(match_of(&config, "// todo"), Some("TODO".into()));
    assert_eq!(match_of(&config, "// TODO!"), Some("TODO".into()));
    assert_eq!(match_of(&config, "// TODO(fonta): x"), Some("TODO".into()));
    assert_eq!(match_of(&config, "// TODO:"), Some("TODO".into()));
    assert_eq!(
        match_of(&config, "/*\n * TODO: later\n */"),
        Some("TODO".into())
    );
    assert_eq!(match_of(&config, "/// TODO: rustdoc"), Some("TODO".into()));
    assert_eq!(match_of(&config, "# TODO: shell"), Some("TODO".into()));
}

#[test]
fn default_config_rejects_non_markers() {
    let config = MatchConfig::default();
    assert_eq!(match_of(&config, "//TODO: no space"), None);
    assert_eq!(match_of(&config, "// TODOS: plural"), None);
    assert_eq!(match_of(&config, "// NOTTODO"), None);
    assert_eq!(match_of(&config, "// plain note"), None);
    assert_eq!(match_of(&config, "// see http://TODO.example"), None);
    assert_eq!(match_of(&config, "// XTODO"), None);
    assert_eq!(match_of(&config, "// TODOX"), None);
}

#[test]
fn space_before_is_configurable() {
    let config = MatchConfig {
        require_space_before: false,
        ..Default::default()
    };
    assert_eq!(match_of(&config, "//TODO: no space"), Some("TODO".into()));
    assert_eq!(match_of(&config, "// XTODO"), None);
    assert_eq!(match_of(&config, "// TODOX"), None);
    assert_eq!(match_of(&config, "#TODO"), Some("TODO".into()));
}

#[test]
fn colon_requirement() {
    let config = MatchConfig {
        require_colon: true,
        ..Default::default()
    };
    assert_eq!(match_of(&config, "// TODO: fix"), Some("TODO".into()));
    assert_eq!(match_of(&config, "// TODO fix"), None);
    assert_eq!(match_of(&config, "// TODO"), None);
}

#[test]
fn case_sensitivity() {
    let config = MatchConfig {
        case_sensitive: true,
        ..Default::default()
    };
    assert_eq!(match_of(&config, "// TODO: x"), Some("TODO".into()));
    assert_eq!(match_of(&config, "// todo: x"), None);
}

#[test]
fn first_category_in_config_order_wins() {
    let config = MatchConfig {
        categories: vec!["PERF".into(), "TODO".into(), "FIXME".into()],
        ..Default::default()
    };
    assert_eq!(match_of(&config, "// FIXME: x"), Some("FIXME".into()));
    assert_eq!(match_of(&config, "// PERF: x"), Some("PERF".into()));
    assert_eq!(match_of(&config, "// TODO: x"), Some("TODO".into()));
}

#[test]
fn invalid_configs_error() {
    assert!(matches!(
        MatchConfig {
            categories: vec![],
            ..Default::default()
        }
        .compile()
        .unwrap_err(),
        MatchConfigError::NoCategories
    ));
    assert!(matches!(
        MatchConfig {
            categories: vec!["  ".into()],
            ..Default::default()
        }
        .compile()
        .unwrap_err(),
        MatchConfigError::EmptyCategory
    ));
}

#[test]
fn categories_with_regex_metacharacters_are_literal() {
    let config = MatchConfig {
        categories: vec!["C(TODO".into()],
        require_space_before: false,
        ..Default::default()
    };
    assert_eq!(match_of(&config, "// C(TODO"), Some("C(TODO".into()));
    assert_eq!(match_of(&config, "// CTODO"), None);
}

#[test]
fn the_first_hit_is_picked() {
    assert_eq!(pick_category(&vec![false, true, true]), Some(1));
    assert_eq!(pick_category(&vec![false, false]), None);
    assert_eq!(pick_category(&vec![]), None);
}

#[test]
fn priority_beats_position() {
    let config = MatchConfig {
        categories: vec!["PERF".into(), "TODO".into()],
        ..Default::default()
    };
    assert_eq!(
        match_of(&config, "/*\n * TODO: x\n * PERF: y\n */"),
        Some("PERF".into())
    );
}

#[test]
fn custom_patterns_replace_the_rule() {
    let config = MatchConfig {
        pattern: Some("^{comment}{marker}:{content}".into()),
        ..Default::default()
    };
    assert_eq!(match_of(&config, "// TODO: the real one"), Some("TODO".into()));
    assert_eq!(match_of(&config, "/// Triage TODO comments: scan."), None);
    assert_eq!(match_of(&config, "// TODO without colon"), None);
}

#[test]
fn unknown_placeholders_are_refused() {
    let config = MatchConfig {
        pattern: Some("{comment}{marker}:{nope}".into()),
        ..Default::default()
    };
    let err = config.compile().unwrap_err();
    assert!(matches!(err, MatchConfigError::UnknownPlaceholder(_)));
    assert!(err.message().contains("unknown placeholder"));
    assert_eq!(fill_pattern("{nope}", "TODO"), Err("nope".to_string()));
}

#[test]
fn patterns_that_do_not_compile_are_refused() {
    let config = MatchConfig {
        pattern: Some("({marker}".into()),
        ..Default::default()
    };
    assert!(matches!(
        config.compile().unwrap_err(),
        MatchConfigError::Regex(_)
    ));
}

#[test]
fn matching_config_messages() {
    assert!(MatchConfigError::NoCategories
        .message()
        .contains("at least one category is required"));
    assert!(MatchConfigError::EmptyCategory
        .message()
        .contains("categories must not be empty"));
}

#[test]
fn a_marker_is_the_first_content_of_a_line() {
    let config = MatchConfig::default();
    assert_eq!(match_of(&config, "/// Triage TODO comments: scan."), None);
    assert_eq!(match_of(&config, "// FIXME: see TODO: x"), Some("FIXME".into()));
    assert_eq!(match_of(&config, "/* note\n * a TODO: x */"), None);
    assert_eq!(match_of(&config, "/* note\nTODO: x */"), Some("TODO".into()));
    assert_eq!(match_of(&config, "// \u{e9} TODO: x"), None);
    assert_eq!(match_of(&config, "// \u{2022} TODO: x"), Some("TODO".into()));
    assert_eq!(match_of(&config, "// TODO: caf\u{e9}"), Some("TODO".into()));
    let config = MatchConfig {
        require_space_before: false,
        ..Default::default()
    };
    assert_eq!(match_of(&config, "// see #TODO"), None);
    assert_eq!(match_of(&config, "//!TODO"), Some("TODO".into()));
}

#[test]
fn one_category_alone_decides() {
    let config = MatchConfig {
        categories: vec!["PERF".into(), "TODO".into()],
        pattern: Some("{marker}:".into()),
        ..Default::default()
    };
    let alone = |category: &str| MatchConfig {
        categories: vec![category.into()],
        pattern: Some("{marker}:".into()),
        ..Default::default()
    };
    for text in ["// TODO: x PERF: y", "// TODO: x", "// PERF: x", "// none"] {
        let first = ["PERF", "TODO"]
            .iter()
            .find_map(|c| match_of(&alone(c), text));
        assert_eq!(match_of(&config, text), first, "{text}");
    }
    // A pattern that a category must not spell out finds no common text.
    let negated = MatchConfig {
        categories: vec!["A".into(), "B".into()],
        pattern: Some("^[^{marker}]$".into()),
        ..Default::default()
    };
    assert_eq!(match_of(&negated, "B"), Some("A".into()));
}

#[test]
fn short_categories_compile() {
    let long = "K".repeat(1000);
    let config = MatchConfig {
        categories: vec![long.clone()],
        ..Default::default()
    };
    assert_eq!(match_of(&config, &format!("// {long}: x")), Some(long));
    let many: Vec<String> = (100..300).map(|n| format!("S{n}")).collect();
    let config = MatchConfig {
        categories: many,
        require_space_before: false,
        ..Default::default()
    };
    assert_eq!(match_of(&config, "//s299!"), Some("S299".into()));
}
