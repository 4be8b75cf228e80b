use todone::process::{
    Call, LaunchingRunner, Launcher, ProcessOutput, ProcessRunner, ScriptedRunner,
};

fn args(list: &[&str]) -> Vec<String> {
    list.iter().map(|a| a.to_string()).collect()
}

#[test]
fn scripted_runner_records_and_serves() {
    let mut runner = ScriptedRunner::new();
    runner.push(true, "out1", "");
    runner.push(false, "", "boom");
    let out = runner
        .run("gh", &args(&["--version"]), Some("in"), None)
        .unwrap();
    assert!(out.success());
    assert_eq!(out.stdout, "out1");
    let out = runner.run("gh", &args(&["--version"]), None, None).unwrap();
    assert!(!out.success());
    assert_eq!(out.stderr, "boom");

    assert_eq!(runner.call_count(), 2);
    let calls = runner.calls();
    assert_eq!(calls[0].program, "gh");
    assert_eq!(calls[0].stdin.as_deref(), Some("in"));
    assert_eq!(calls[0].args, vec!["--version"]);
}

#[test]
fn scripted_runner_fails_on_unscripted_calls() {
    let mut runner = ScriptedRunner::new();
    let out = runner.run("gh", &args(&[]), None, None).unwrap();
    assert!(!out.success());
    assert!(out.stderr.contains("no scripted response"));
    assert_eq!(out.code, Some(1));
    assert_eq!(out.stdout, "");
}

#[test]
fn exit_codes_follow_success() {
    let mut runner = ScriptedRunner::new();
    runner.push(true, "", "");
    runner.push(false, "", "");
    assert_eq!(
        runner.run("a", &args(&[]), None, Some("/tmp")).unwrap().code,
        Some(0)
    );
    assert_eq!(runner.run("b", &args(&[]), None, None).unwrap().code, Some(1));
    assert_eq!(runner.calls()[0].cwd.as_deref(), Some("/tmp"));
    assert_eq!(runner.calls()[1].cwd, None);
}

#[test]
fn calls_read_as_command_lines() {
    let call = Call {
        program: "gh".into(),
        args: args(&["issue", "create"]),
        stdin: None,
        cwd: None,
    };
    assert_eq!(call.message(), "gh issue create");
}

#[test]
fn outputs_report_their_success() {
    let out = ProcessOutput {
        success: true,
        code: None,
        stdout: "x".into(),
        stderr: "y".into(),
    };
    assert!(out.success());
    assert_eq!(out.clone(), out);
}

/// Says what it was asked to run.
struct Echo;

impl Launcher for Echo {
    fn launch(
        &mut self,
        program: &str,
        args: &Vec<String>,
        input: Option<&str>,
        cwd: Option<&str>,
    ) -> Result<ProcessOutput, String> {
        if program.is_empty() {
            return Err("no program".into());
        }
        Ok(ProcessOutput {
            success: true,
            code: Some(0),
            stdout: format!("{program} {args:?} {input:?} {cwd:?}"),
            stderr: String::new(),
        })
    }
}

#[test]
fn launched_programs_reply_for_themselves() {
    let mut runner = LaunchingRunner::new(Echo);
    let out = runner
        .run("gh", &args(&["a"]), Some("in"), Some("/tmp"))
        .unwrap();
    assert_eq!(out.stdout, "gh [\"a\"] Some(\"in\") Some(\"/tmp\")");
    assert_eq!(
        runner.run("", &args(&[]), None, None).unwrap_err(),
        "no program"
    );
}

/// Counts how often it was asked.
struct Counter(usize);

impl Launcher for Counter {
    fn launch(
        &mut self,
        program: &str,
        _args: &Vec<String>,
        _input: Option<&str>,
        _cwd: Option<&str>,
    ) -> Result<ProcessOutput, String> {
        self.0 += 1;
        Err(format!("{program} {}", self.0))
    }
}

#[test]
fn each_run_is_one_launch() {
    let mut runner = LaunchingRunner::new(Counter(0));
    assert_eq!(runner.run("a", &args(&[]), None, None).unwrap_err(), "a 1");
    assert_eq!(runner.run("b", &args(&[]), None, None).unwrap_err(), "b 2");
}
