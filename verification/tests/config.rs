use todone::config::{
    user_config_path, CliOverrides, Config, ConfigError, ConfigFile, ConfigSource, ContextFile,
    FileFault, ForgeFile, MatchFile, ScanFile,
};
use todone::matcher::MatchConfig;

fn source(path: &str, file: ConfigFile) -> Option<ConfigSource> {
    Some(ConfigSource {
        path: path.into(),
        file: Ok(file),
    })
}

fn context(before: Option<usize>, after: Option<usize>) -> Option<ContextFile> {
    Some(ContextFile {
        before,
        after,
        wrap: None,
    })
}

fn matching(categories: Option<Vec<&str>>, case_sensitive: Option<bool>) -> Option<ScanFile> {
    Some(ScanFile {
        match_config: Some(MatchFile {
            categories: categories.map(|c| c.into_iter().map(str::to_string).collect()),
            case_sensitive,
            require_space_before: None,
            require_colon: None,
            pattern: None,
        }),
        paths: None,
        exclude: None,
        max_file_bytes: None,
    })
}

#[test]
fn defaults_are_sane() {
    let config = Config::defaults();
    assert_eq!(config.scan.match_config.categories, vec!["TODO", "FIXME"]);
    assert_eq!(config.context.before, 3);
    assert_eq!(config.context.after, 3);
    assert_eq!(config.forge.kind, "github");
    assert!(config.validate().is_ok());
}

#[test]
fn user_config_overrides_defaults() {
    let user = ConfigFile {
        scan: matching(Some(vec!["PERF"]), None),
        context: context(Some(1), None),
        ..Default::default()
    };
    let config = Config::load(source("config.toml", user), None, &CliOverrides::default()).unwrap();
    assert_eq!(config.scan.match_config.categories, vec!["PERF"]);
    assert_eq!(config.context.before, 1);
    assert_eq!(config.context.after, 3); // untouched
}

#[test]
fn repo_config_wins_over_user_config() {
    let user = ConfigFile {
        context: context(Some(1), Some(1)),
        ..Default::default()
    };
    let repo = ConfigFile {
        context: context(Some(9), None),
        ..Default::default()
    };
    let config = Config::load(
        source("user.toml", user),
        source("todone.toml", repo),
        &CliOverrides::default(),
    )
    .unwrap();
    assert_eq!(config.context.before, 9);
    assert_eq!(config.context.after, 1);
}

#[test]
fn cli_overrides_win() {
    let repo = ConfigFile {
        context: context(Some(9), None),
        ..Default::default()
    };
    let overrides = CliOverrides {
        context_before: Some(2),
        categories: Some(vec!["HACK".into()]),
        ..Default::default()
    };
    let config = Config::load(None, source("todone.toml", repo), &overrides).unwrap();
    assert_eq!(config.context.before, 2);
    assert_eq!(config.scan.match_config.categories, vec!["HACK"]);
}

#[test]
fn missing_files_are_not_errors() {
    let config = Config::load(None, None, &CliOverrides::default()).unwrap();
    assert_eq!(config, Config::defaults());
}

#[test]
fn invalid_toml_is_reported_with_path() {
    let bad = Some(ConfigSource {
        path: "bad.toml".into(),
        file: Err(FileFault::Parse("invalid array".into())),
    });
    let err = Config::load(bad, None, &CliOverrides::default()).unwrap_err();
    assert!(matches!(err, ConfigError::Parse { .. }));
    assert_eq!(
        err.message(),
        "failed to parse config bad.toml: invalid array"
    );
}

#[test]
fn unreadable_files_are_reported_with_path() {
    let bad = Some(ConfigSource {
        path: "todone.toml".into(),
        file: Err(FileFault::Io("permission denied".into())),
    });
    let err = Config::load(None, bad, &CliOverrides::default()).unwrap_err();
    assert!(matches!(err, ConfigError::Io { .. }));
    assert_eq!(
        err.message(),
        "failed to read config todone.toml: permission denied"
    );
}

#[test]
fn unknown_forge_is_rejected() {
    let repo = ConfigFile {
        forge: Some(ForgeFile {
            kind: Some("gitlab".into()),
        }),
        ..Default::default()
    };
    let err =
        Config::load(None, source("todone.toml", repo), &CliOverrides::default()).unwrap_err();
    assert!(matches!(err, ConfigError::UnknownForge(_)));
    assert!(err.message().contains("unknown forge"));
}

#[test]
fn port_with_unknown_forge_fails() {
    let overrides = CliOverrides {
        forge: Some("gitlab".into()),
        ..Default::default()
    };
    let err = Config::load(None, None, &overrides).unwrap_err();
    assert!(err.message().contains("unknown forge"));
}

#[test]
fn empty_categories_are_rejected() {
    let repo = ConfigFile {
        scan: matching(Some(vec![]), None),
        ..Default::default()
    };
    let err =
        Config::load(None, source("todone.toml", repo), &CliOverrides::default()).unwrap_err();
    assert!(matches!(err, ConfigError::MatchConfig(_)));
    assert!(err.message().contains("at least one category is required"));
}

#[test]
fn partial_match_section_keeps_defaults() {
    let repo = ConfigFile {
        scan: matching(None, Some(true)),
        ..Default::default()
    };
    let config =
        Config::load(None, source("todone.toml", repo), &CliOverrides::default()).unwrap();
    assert!(config.scan.match_config.case_sensitive);
    assert_eq!(
        config.scan.match_config.categories,
        MatchConfig::default().categories
    );
    assert_eq!(config.scan.match_config.pattern, None);
}

#[test]
fn an_empty_file_changes_nothing() {
    let mut merged = Config::defaults();
    merged.merge_file_struct(ConfigFile::default());
    assert_eq!(merged, Config::defaults());
    merged.apply_overrides(&CliOverrides::default());
    assert_eq!(merged, Config::defaults());
    assert!(Config::sample().contains("[scan.match]"));
}

#[test]
fn applying_overrides_twice_is_applying_them_once() {
    let overrides = CliOverrides {
        case_sensitive: Some(true),
        require_space_before: Some(false),
        require_colon: Some(true),
        match_pattern: Some("{marker}".into()),
        paths: Some(vec!["src".into()]),
        exclude: Some(vec!["vendor/**".into()]),
        max_file_bytes: Some(7),
        context_after: Some(0),
        wrap: Some(true),
        editor: Some("vi".into()),
        ..Default::default()
    };
    let mut once = Config::defaults();
    once.apply_overrides(&overrides);
    let mut twice = Config::defaults();
    twice.apply_overrides(&overrides);
    twice.apply_overrides(&overrides);
    assert_eq!(once, twice);
    assert!(once.scan.match_config.case_sensitive);
    assert!(!once.scan.match_config.require_space_before);
    assert!(once.scan.match_config.require_colon);
    assert_eq!(once.scan.match_config.pattern.as_deref(), Some("{marker}"));
    assert_eq!(once.scan.paths, vec!["src"]);
    assert_eq!(once.scan.exclude, vec!["vendor/**"]);
    assert_eq!(once.scan.max_file_bytes, 7);
    assert_eq!(once.context.after, 0);
    assert_eq!(once.editor.command.as_deref(), Some("vi"));
}

#[test]
fn scan_options_reflect_config() {
    let config = Config::defaults();
    let options = config.scan_options();
    assert_eq!(options.match_config, config.scan.match_config);
    assert_eq!(options.max_file_bytes, config.scan.max_file_bytes);
}

#[test]
fn user_config_path_prefers_the_explicit_file() {
    let path = |todone: Option<&str>, xdg: Option<&str>, home: Option<&str>| {
        user_config_path(
            todone.map(str::to_string),
            xdg.map(str::to_string),
            home.map(str::to_string),
        )
    };
    assert_eq!(
        path(Some("/c.toml"), Some("/x"), Some("/h")).as_deref(),
        Some("/c.toml")
    );
    assert_eq!(
        path(None, Some("/x"), Some("/h")).as_deref(),
        Some("/x/todone/config.toml")
    );
    assert_eq!(
        path(None, None, Some("/h")).as_deref(),
        Some("/h/.config/todone/config.toml")
    );
    assert_eq!(path(None, None, None), None);
}

#[test]
fn the_defaults_load() {
    assert!(Config::defaults().validate().is_ok());
    let config = Config::load(None, None, &CliOverrides::default()).unwrap();
    assert_eq!(config, Config::defaults());
}
