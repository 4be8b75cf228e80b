use todone::cli::{command_overrides, flag, overrides, resolve_color, CommonScanArgs};
use todone::config::{CliOverrides, Config, ConfigFile, ConfigSource, MatchFile, ScanFile};
use todone::scan::{FileEntry, Scanner};

fn no_args() -> CommonScanArgs {
    CommonScanArgs {
        after: None,
        before: None,
        pattern: None,
        match_pattern: None,
        case_sensitive: false,
        no_case_sensitive: false,
        require_space: false,
        no_space: false,
        require_colon: false,
        no_colon: false,
        wrap: false,
        no_wrap: false,
        exclude: vec![],
        max_file_bytes: None,
        paths: vec![],
    }
}

fn found(config: &Config, file: &str, content: &str) -> Vec<String> {
    let files = vec![FileEntry {
        path: format!("/repo/{file}"),
        content: Ok(content.as_bytes().to_vec()),
    }];
    Scanner::new(config.scan_options())
        .unwrap()
        .scan("/repo", files)
        .unwrap()
        .findings
        .iter()
        .map(|f| format!("{}:{}: {}", f.path(), f.line(), f.category))
        .collect()
}

#[test]
fn color_resolution() {
    assert!(resolve_color(true, false, false));
    assert!(resolve_color(true, true, false));
    assert!(!resolve_color(false, true, true));
    assert!(!resolve_color(false, false, false));
    assert!(resolve_color(false, false, true));
}

#[test]
fn flags_come_in_pairs() {
    assert_eq!(flag(true, false), Some(true));
    assert_eq!(flag(false, true), Some(false));
    assert_eq!(flag(false, false), None);
}

#[test]
fn patterns_list_categories() {
    let args = CommonScanArgs {
        pattern: Some("TODO, FIXME ,PERF".into()),
        after: Some(1),
        before: Some(2),
        no_space: true,
        ..no_args()
    };
    let o = overrides(&args);
    assert_eq!(
        o.categories,
        Some(vec!["TODO".into(), "FIXME".into(), "PERF".into()])
    );
    assert_eq!(o.context_after, Some(1));
    assert_eq!(o.context_before, Some(2));
    assert_eq!(o.require_space_before, Some(false));
    assert_eq!(o.case_sensitive, None);
    assert_eq!(o.paths, None);
    assert_eq!(o.exclude, None);
}

#[test]
fn commands_scan_their_targets() {
    let args = CommonScanArgs {
        paths: vec!["../repo-b".into()],
        exclude: vec!["vendor/**".into()],
        wrap: true,
        ..no_args()
    };
    let o = command_overrides(
        &args,
        &vec![".".to_string()],
        Some("github".into()),
        Some("vi".into()),
    );
    assert_eq!(o.paths, Some(vec![".".to_string()]));
    assert_eq!(o.exclude, Some(vec!["vendor/**".to_string()]));
    assert_eq!(o.wrap, Some(true));
    assert_eq!(o.forge.as_deref(), Some("github"));
    assert_eq!(o.editor.as_deref(), Some("vi"));
    assert_eq!(
        overrides(&args).paths,
        Some(vec!["../repo-b".to_string()])
    );
}

#[test]
fn scan_rejects_empty_category() {
    let args = CommonScanArgs {
        pattern: Some(String::new()),
        ..no_args()
    };
    let err = Config::load(None, None, &overrides(&args)).unwrap_err();
    assert!(err.message().contains("categories must not be empty"));
}

#[test]
fn scan_with_custom_pattern_flags() {
    let args = CommonScanArgs {
        pattern: Some("FIXME".into()),
        ..no_args()
    };
    let config = Config::load(None, None, &overrides(&args)).unwrap();
    let source = "fn main() {\n    // TODO: fix this\n    // FIXME: and this\n}\n";
    assert_eq!(
        found(&config, "src/main.rs", source),
        vec!["src/main.rs:3: FIXME"]
    );
}

#[test]
fn scan_anchored_default_ignores_doc_mentions() {
    let config = Config::load(None, None, &overrides(&no_args())).unwrap();
    let source = "/// Triage TODO comments: scan, review, and port them.\n// TODO: the real one\nfn main() {}\n";
    assert_eq!(found(&config, "a.rs", source), vec!["a.rs:2: TODO"]);
}

#[test]
fn scan_with_custom_match_pattern() {
    let args = CommonScanArgs {
        match_pattern: Some("^{comment}{marker}:{content}".into()),
        ..no_args()
    };
    let config = Config::load(None, None, &overrides(&args)).unwrap();
    let source = "/// Triage TODO comments: scan.\n// TODO: the real one\n// TODO without colon\nfn main() {}\n";
    assert_eq!(found(&config, "a.rs", source), vec!["a.rs:2: TODO"]);
}

#[test]
fn scan_rejects_invalid_match_pattern() {
    let args = CommonScanArgs {
        match_pattern: Some("{comment}{marker}:{nope}".into()),
        ..no_args()
    };
    let err = Config::load(None, None, &overrides(&args)).unwrap_err();
    assert!(err.message().contains("unknown placeholder"));
}

fn repo_config(categories: Option<Vec<String>>, pattern: Option<&str>) -> Option<ConfigSource> {
    Some(ConfigSource {
        path: "todone.toml".into(),
        file: Ok(ConfigFile {
            scan: Some(ScanFile {
                match_config: Some(MatchFile {
                    categories,
                    case_sensitive: None,
                    require_space_before: None,
                    require_colon: None,
                    pattern: pattern.map(str::to_string),
                }),
                paths: None,
                exclude: None,
                max_file_bytes: None,
            }),
            ..Default::default()
        }),
    })
}

#[test]
fn scan_rejects_unknown_placeholder_in_config_pattern() {
    let repo = repo_config(None, Some("{comment}{marker}{nope}"));
    let err = Config::load(None, repo, &CliOverrides::default()).unwrap_err();
    assert!(err.message().contains("unknown placeholder"));
}

#[test]
fn scan_rejects_invalid_config() {
    let repo = repo_config(Some(vec![]), None);
    let err = Config::load(None, repo, &CliOverrides::default()).unwrap_err();
    assert!(err.message().contains("at least one category is required"));
}

#[test]
fn scope_in_another_repo_uses_that_repos_config() {
    let repo = repo_config(Some(vec!["PERF".into()]), None);
    let config = Config::load(None, repo, &CliOverrides::default()).unwrap();
    let source = "fn main() {\n    // TODO: fix\n}\n";
    assert!(found(&config, "main.rs", source).is_empty());
}
