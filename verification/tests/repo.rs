use todone::repo::{
    discover_repo, no_repo, resolve_scope, target_dir, RepoError, RepoInfo, ScopePath,
};

fn repo(root: &str) -> Option<RepoInfo> {
    discover_repo(
        Some(format!("{root}\n")),
        Some("0123456789012345678901234567890123456789\n".into()),
        None,
    )
}

fn scope_path(
    path: &str,
    canonical: Option<&str>,
    is_file: bool,
    repo: Option<RepoInfo>,
) -> ScopePath {
    ScopePath {
        path: path.into(),
        canonical: canonical.map(str::to_string),
        is_file,
        repo: Ok(repo),
    }
}

#[test]
fn discovers_root_commit_and_remote_of_a_repo() {
    let found = repo("/work/a").unwrap();
    assert_eq!(found.root, "/work/a");
    assert!(found.is_repo);
    assert!(found.commit.as_deref().is_some_and(|c| c.len() == 40));
    assert_eq!(found.remote, None);

    let cloned = discover_repo(
        Some("/work/a\n".into()),
        None,
        Some("git@example.org:a.git\n".into()),
    )
    .unwrap();
    assert_eq!(cloned.commit, None);
    assert_eq!(cloned.remote.as_deref(), Some("git@example.org:a.git"));
}

#[test]
fn no_repo_yields_none_and_fallback_marks_it() {
    assert!(discover_repo(None, None, None).is_none());
    let fallback = no_repo("/tmp/x".into());
    assert!(!fallback.is_repo);
    assert_eq!(fallback.commit, None);
}

#[test]
fn empty_scope_uses_start() {
    let scope = resolve_scope("/tmp/x", &Ok(None), &vec![]).unwrap();
    assert!(!scope.repo.is_repo);
    assert_eq!(scope.repo.root, "/tmp/x");
    assert!(scope.targets.is_empty());
    assert!(scope.warnings.iter().any(|w| w.contains("no forge sink")));
}

#[test]
fn scope_inside_a_repo_resolves_to_it() {
    let scope = resolve_scope(
        "/work/a",
        &Ok(repo("/work/a")),
        &vec![scope_path("src", Some("/work/a/src"), false, repo("/work/a"))],
    )
    .unwrap();
    assert!(scope.repo.is_repo);
    assert_eq!(scope.repo.root, "/work/a");
    assert_eq!(scope.targets, vec!["src"]);
    assert!(scope.warnings.is_empty());
}

#[test]
fn scope_in_another_repo_rebases_to_it() {
    let scope = resolve_scope(
        "/work/repo-a",
        &Ok(repo("/work/repo-a")),
        &vec![scope_path(
            "../repo-b",
            Some("/work/repo-b"),
            false,
            repo("/work/repo-b"),
        )],
    )
    .unwrap();
    assert_eq!(scope.repo.root, "/work/repo-b");
    assert_eq!(scope.targets, vec!["."]);
    assert!(scope.warnings.is_empty());
}

#[test]
fn file_scope_uses_its_parent_for_discovery() {
    assert_eq!(target_dir("/work/a/a.rs", true), "/work/a");
    assert_eq!(target_dir("/work/a", false), "/work/a");
    let scope = resolve_scope(
        "/work/a",
        &Ok(repo("/work/a")),
        &vec![scope_path(
            "/work/a/a.rs",
            Some("/work/a/a.rs"),
            true,
            repo("/work/a"),
        )],
    )
    .unwrap();
    assert!(scope.repo.is_repo);
    assert_eq!(scope.repo.root, "/work/a");
    assert_eq!(scope.targets, vec!["a.rs"]);
}

#[test]
fn repo_missing_scope_path_errors() {
    let err = resolve_scope(
        "/tmp/x",
        &Ok(None),
        &vec![scope_path("nope", None, false, None)],
    )
    .unwrap_err();
    assert!(matches!(err, RepoError::MissingPath(_)));
}

#[test]
fn cli_missing_scope_path_errors() {
    let err = resolve_scope(
        "/work/a",
        &Ok(repo("/work/a")),
        &vec![scope_path("does-not-exist", None, false, None)],
    )
    .unwrap_err();
    assert!(err.message().contains("path does not exist"));
}

#[test]
fn failing_discovery_is_an_error() {
    let err = resolve_scope("/x", &Err("git crashed".into()), &vec![]).unwrap_err();
    assert!(matches!(err, RepoError::Io(_)));
    assert_eq!(err.message(), "git crashed");
}

#[test]
fn multiple_repos_warn_and_first_wins() {
    let scope = resolve_scope(
        "/work/repo-a",
        &Ok(repo("/work/repo-a")),
        &vec![
            scope_path(".", Some("/work/repo-a"), false, repo("/work/repo-a")),
            scope_path(
                "../repo-b",
                Some("/work/repo-b"),
                false,
                repo("/work/repo-b"),
            ),
        ],
    )
    .unwrap();
    assert_eq!(scope.repo.root, "/work/repo-a");
    assert_eq!(scope.targets[0], ".");
    // Targets outside the chosen root stay absolute.
    assert_eq!(scope.targets[1], "/work/repo-b");
    assert!(scope
        .warnings
        .iter()
        .any(|w| w.contains("spans multiple repositories")));
}

#[test]
fn non_git_scope_falls_back_to_start_repo() {
    let scope = resolve_scope(
        "/work/repo-a",
        &Ok(repo("/work/repo-a")),
        &vec![scope_path(
            "../plain-dir",
            Some("/work/plain-dir"),
            false,
            None,
        )],
    )
    .unwrap();
    assert_eq!(scope.repo.root, "/work/repo-a");
    assert!(scope.repo.is_repo);
    assert!(scope
        .warnings
        .iter()
        .any(|w| w.contains("not inside a git repository")));
}

#[test]
fn non_git_scope_without_start_repo_warns_and_uses_base() {
    let scope = resolve_scope(
        "/work",
        &Ok(None),
        &vec![scope_path("plain-dir", Some("/work/plain-dir"), false, None)],
    )
    .unwrap();
    assert!(!scope.repo.is_repo);
    assert_eq!(scope.repo.root, "/work/plain-dir");
    assert!(scope.warnings.iter().any(|w| w.contains("no forge sink")));
}
