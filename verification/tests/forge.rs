use todone::config::ForgeConfig;
use todone::created::parse_created;
use todone::draft::IssueDraft;
use todone::forge::{
    from_config, repo_from_field, Forge, ForgeError, GitHubForge,
    JsonField,
};
use todone::process::ScriptedRunner;

fn draft() -> IssueDraft {
    IssueDraft {
        category: "TODO".into(),
        path: "src/lib.rs".into(),
        commit: "abc123".into(),
        title: "Fix it".into(),
        description: "It's broken.".into(),
    }
}

fn gh_forge() -> GitHubForge<ScriptedRunner> {
    GitHubForge::new(ScriptedRunner::new(), Some("owner/repo".into()))
}

#[test]
fn create_issue_builds_the_right_command() {
    let mut forge = gh_forge();
    forge.runner.push(
        true,
        r#"{"number": 42, "url": "https://github.com/owner/repo/issues/42"}"#,
        "",
    );

    let created = forge.create_issue(&draft()).unwrap();
    assert_eq!(created.number, 42);
    assert_eq!(created.url, "https://github.com/owner/repo/issues/42");

    let call = &forge.runner.calls()[0];
    assert_eq!(call.program, "gh");
    assert_eq!(
        call.args,
        [
            "issue",
            "create",
            "--repo",
            "owner/repo",
            "--title",
            "Fix it",
            "--body",
            "It's broken.",
            "--json",
            "number,url",
        ]
    );
}

#[test]
fn create_issue_reports_gh_failures() {
    let mut forge = gh_forge();
    forge.runner.push(false, "", "gh: not logged in");

    let err = forge.create_issue(&draft()).unwrap_err();
    assert!(matches!(err, ForgeError::CommandFailed { .. }));
    assert!(err.message().contains("not logged in"));
}

#[test]
fn create_issue_parses_bad_output() {
    let mut forge = gh_forge();
    forge.runner.push(true, "not json", "");

    let err = forge.create_issue(&draft()).unwrap_err();
    assert!(matches!(err, ForgeError::Parse(_)));
}

#[test]
fn resolve_repo_uses_override_without_running_gh() {
    let mut forge = gh_forge();
    assert_eq!(forge.resolve_repo().unwrap(), "owner/repo");
    assert_eq!(forge.runner.call_count(), 0);
}

#[test]
fn resolve_repo_asks_gh_without_override() {
    let mut runner = ScriptedRunner::new();
    runner.push(true, r#"{"nameWithOwner": "other/proj"}"#, "");
    let mut forge = GitHubForge::new(runner, None);

    assert_eq!(forge.resolve_repo().unwrap(), "other/proj");
    let call = &forge.runner.calls()[0];
    assert_eq!(call.args, ["repo", "view", "--json", "nameWithOwner"]);
}

#[test]
fn resolve_repo_reports_bad_gh_output() {
    let mut runner = ScriptedRunner::new();
    runner.push(true, "nope", "");
    let mut forge = GitHubForge::new(runner, None);
    assert!(matches!(
        forge.resolve_repo().unwrap_err(),
        ForgeError::Parse(_)
    ));
}

#[test]
fn forge_id_is_github() {
    let forge = gh_forge();
    assert_eq!(forge.id(), "github");
}

#[test]
fn an_unknown_repository_creates_no_issue() {
    let mut runner = ScriptedRunner::new();
    runner.push(false, "", "no repository");
    let mut forge = GitHubForge::new(runner, None);
    assert!(matches!(
        forge.create_issue(&draft()).unwrap_err(),
        ForgeError::CommandFailed { .. }
    ));
    assert_eq!(forge.runner.call_count(), 1);
}

#[test]
fn a_resolved_repository_is_used() {
    let mut runner = ScriptedRunner::new();
    runner.push(true, r#"{"nameWithOwner": "other/proj"}"#, "");
    runner.push(true, r#"{"number": 7, "url": "u"}"#, "");
    let mut forge = GitHubForge::new(runner, None);
    assert_eq!(forge.create_issue(&draft()).unwrap().number, 7);
    assert_eq!(forge.runner.call_count(), 2);
    assert_eq!(forge.runner.calls()[1].args[3], "other/proj");
}

#[test]
fn fields_decide_the_repository() {
    assert_eq!(
        repo_from_field(Ok(JsonField::Text("a/b".into()))).unwrap(),
        "a/b"
    );
    assert_eq!(
        repo_from_field(Ok(JsonField::Missing)).unwrap_err(),
        ForgeError::Parse("missing nameWithOwner".into())
    );
    assert_eq!(
        repo_from_field(Ok(JsonField::Other)).unwrap_err(),
        ForgeError::Parse("missing nameWithOwner".into())
    );
    assert_eq!(
        repo_from_field(Err("eof".into())).unwrap_err(),
        ForgeError::Parse("eof".into())
    );
}

#[test]
fn created_issues_need_a_whole_number() {
    assert!(parse_created(r#"{"number": -1, "url": "u"}"#).is_err());
    assert!(parse_created(r#"{"number": 1.5, "url": "u"}"#).is_err());
    assert!(parse_created(r#"{"url": "u"}"#).is_err());
    assert!(parse_created("[]").is_err());
}

#[test]
fn configuration_selects_the_backend() {
    let config = ForgeConfig {
        kind: "github".into(),
    };
    let forge = from_config(&config, ScriptedRunner::new()).unwrap();
    assert_eq!(forge.id(), "github");

    let config = ForgeConfig {
        kind: "gitlab".into(),
    };
    match from_config(&config, ScriptedRunner::new()) {
        Err(err) => assert_eq!(err.message(), "unsupported forge gitlab"),
        Ok(_) => panic!("gitlab is not supported"),
    }
}

#[test]
fn forge_errors_read_well() {
    assert_eq!(
        ForgeError::CommandFailed {
            program: "gh".into(),
            args: "repo view".into(),
            stderr: "no".into(),
        }
        .message(),
        "command failed: gh repo view: no"
    );
    assert_eq!(
        ForgeError::Parse("x".into()).message(),
        "failed to parse backend output: x"
    );
    assert_eq!(
        ForgeError::Repository("x".into()).message(),
        "could not determine the repository: x"
    );
    assert_eq!(
        ForgeError::Io {
            program: "gh".into(),
            source: "not found".into(),
        }
        .message(),
        "failed to run gh: not found"
    );
}

#[test]
fn created_issues_may_come_as_a_pair() {
    let issue = parse_created("[42, \"https://example.org/42\"]").unwrap();
    assert_eq!(issue.number, 42);
    assert_eq!(issue.url, "https://example.org/42");
    assert!(parse_created("[42]").is_err());
    assert!(parse_created("[42, \"u\", 1]").is_err());
    assert!(parse_created("[\"u\", 42]").is_err());
}
