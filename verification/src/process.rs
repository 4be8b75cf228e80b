//! A thin, testable process-execution layer.
//!
//! The forge backends shell out to command-line programs. Every call goes
//! through [`ProcessRunner`], which tests replace with [`ScriptedRunner`].

use crate::config;
use crate::matcher;
use crate::text;
use vstd::prelude::*;
use vstd::string::*;

verus! {

/// The mathematical content of a [`ProcessOutput`].
#[verifier::ext_equal]
pub struct OutputView {
    pub success: bool,
    pub code: Option<i32>,
    pub stdout: Seq<char>,
    pub stderr: Seq<char>,
}

/// The outcome of running a process.
#[derive(Debug, PartialEq, Eq)]
pub struct ProcessOutput {
    /// Whether the process exited successfully.
    pub success: bool,
    /// The exit code, when the process was not killed by a signal.
    pub code: Option<i32>,
    /// Captured stdout.
    pub stdout: String,
    /// Captured stderr.
    pub stderr: String,
}

impl View for ProcessOutput {
    type V = OutputView;

    open spec fn view(&self) -> OutputView {
        OutputView {
            success: self.success,
            code: self.code,
            stdout: self.stdout@,
            stderr: self.stderr@,
        }
    }
}

impl Clone for ProcessOutput {
    fn clone(&self) -> (r: Self)
        ensures
            r == *self,
    {
        ProcessOutput {
            success: self.success,
            code: self.code,
            stdout: self.stdout.clone(),
            stderr: self.stderr.clone(),
        }
    }
}

impl ProcessOutput {
    /// Whether the process exited with code 0.
    pub fn success(&self) -> (r: bool)
        ensures
            r == self.success,
    {
        self.success
    }
}

/// The mathematical content of a [`Call`].
#[verifier::ext_equal]
pub struct CallView {
    pub program: Seq<char>,
    pub args: Seq<Seq<char>>,
    pub stdin: Option<Seq<char>>,
    pub cwd: Option<Seq<char>>,
}

/// A recorded invocation.
#[derive(Debug, PartialEq, Eq)]
pub struct Call {
    /// The program that was invoked.
    pub program: String,
    /// The arguments passed.
    pub args: Vec<String>,
    /// The stdin payload, when any.
    pub stdin: Option<String>,
    /// The working directory the process ran in.
    pub cwd: Option<String>,
}

impl View for Call {
    type V = CallView;

    open spec fn view(&self) -> CallView {
        CallView {
            program: self.program@,
            args: text::texts(self.args@),
            stdin: matcher::text_option(self.stdin),
            cwd: matcher::text_option(self.cwd),
        }
    }
}

impl Clone for Call {
    fn clone(&self) -> (r: Self)
        ensures
            r@ == self@,
    {
        Call {
            program: self.program.clone(),
            args: text::clone_strings(&self.args),
            stdin: config::clone_option(&self.stdin),
            cwd: config::clone_option(&self.cwd),
        }
    }
}

/// A command line: the program and its arguments, separated by spaces.
pub open spec fn command_line(program: Seq<char>, args: Seq<Seq<char>>) -> Seq<char> {
    program + " "@ + text::joined_texts(args, " "@)
}

impl Call {
    /// The command line of the call.
    pub fn message(&self) -> (r: String)
        ensures
            r@ == command_line(self.program@, text::texts(self.args@)),
    {
        let mut s = self.program.clone();
        s.append(" ");
        let args = text::join_strings(&self.args, " ");
        s.append(args.as_str());
        s
    }
}

/// The text of an optional string slice.
pub open spec fn str_option(s: Option<&str>) -> Option<Seq<char>> {
    match s {
        Some(s) => Some(s@),
        None => None,
    }
}

/// An owned copy of an optional string slice.
fn own_option(s: Option<&str>) -> (r: Option<String>)
    ensures
        matcher::text_option(r) == str_option(s),
{
    match s {
        Some(s) => Some(s.to_owned()),
        None => None,
    }
}

/// One finished process: what was asked and what came back, the output of
/// the process or the reason it could not be run.
#[verifier::ext_equal]
pub struct Exchange {
    pub call: CallView,
    pub reply: Result<OutputView, Seq<char>>,
}

/// The content of a runner's reply.
pub open spec fn reply_view(r: Result<ProcessOutput, String>) -> Result<OutputView, Seq<char>> {
    match r {
        Ok(output) => Ok(output@),
        Err(reason) => Err(reason@),
    }
}

/// Something that can run a program, capturing its output.
pub trait ProcessRunner {
    /// Every process run so far, oldest first.
    spec fn log(&self) -> Seq<Exchange>;

    /// Whether `e` may be the exchange `k` runs ahead, the next one being at
    /// zero.
    spec fn may_reply(&self, k: int, e: Exchange) -> bool;

    /// Runs `program` with `args`, writing `input` to its stdin when given,
    /// from working directory `cwd` (the process's own directory when
    /// `None`). The error says why the program could not be run.
    fn run(
        &mut self,
        program: &str,
        args: &Vec<String>,
        input: Option<&str>,
        cwd: Option<&str>,
    ) -> (r: Result<ProcessOutput, String>)
        ensures
            final(self).log() == old(self).log().push(exchange_of(program, args, input, cwd, r)),
            old(self).may_reply(0, exchange_of(program, args, input, cwd, r)),
            forall|k: int, e: Exchange|
                0 <= k ==> #[trigger] final(self).may_reply(k, e) == old(self).may_reply(k + 1, e),
    ;
}

/// A call and its reply.
pub open spec fn exchange_of(
    program: &str,
    args: &Vec<String>,
    input: Option<&str>,
    cwd: Option<&str>,
    reply: Result<ProcessOutput, String>,
) -> Exchange {
    Exchange {
        call: CallView {
            program: program@,
            args: text::texts(args@),
            stdin: str_option(input),
            cwd: str_option(cwd),
        },
        reply: reply_view(reply),
    }
}

/// Whether the exchanges of `log` from the `n`th on are ones that `runner`
/// may have, one after another.
pub open spec fn are_replies<R: ProcessRunner>(runner: R, log: Seq<Exchange>, n: int) -> bool {
    forall|j: int| n <= j < log.len() ==> runner.may_reply(j - n, #[trigger] log[j])
}

/// Whether `after` may reply what `before` may reply `n` runs later.
pub open spec fn has_moved_on<R: ProcessRunner>(before: R, after: R, n: int) -> bool {
    forall|k: int, e: Exchange|
        0 <= k ==> #[trigger] after.may_reply(k, e) == before.may_reply(k + n, e)
}

/// Something that can start a program and wait for it.
pub trait Launcher {
    /// Runs `program` with `args`, writing `input` to its stdin when given,
    /// from working directory `cwd` (the process's own directory when
    /// `None`). The error says why the program could not be run.
    fn launch(
        &mut self,
        program: &str,
        args: &Vec<String>,
        input: Option<&str>,
        cwd: Option<&str>,
    ) -> (r: Result<ProcessOutput, String>);
}

/// A runner that hands every call to a launcher and hands back its reply.
pub struct LaunchingRunner<L: Launcher> {
    launcher: L,
    log: Ghost<Seq<Exchange>>,
}

impl<L: Launcher> LaunchingRunner<L> {
    /// The launcher that the calls are handed to.
    pub closed spec fn launcher(self) -> L {
        self.launcher
    }

    /// A runner that has run nothing yet.
    pub fn new(launcher: L) -> (r: Self)
        ensures
            r.log() == Seq::<Exchange>::empty(),
            r.launcher() == launcher,
    {
        LaunchingRunner { launcher, log: Ghost(Seq::empty()) }
    }
}

impl<L: Launcher> ProcessRunner for LaunchingRunner<L> {
    closed spec fn log(&self) -> Seq<Exchange> {
        self.log@
    }

    /// What a program will answer is not known.
    open spec fn may_reply(&self, k: int, e: Exchange) -> bool {
        true
    }

    fn run(
        &mut self,
        program: &str,
        args: &Vec<String>,
        input: Option<&str>,
        cwd: Option<&str>,
    ) -> (r: Result<ProcessOutput, String>)
        ensures
            exists|l: &mut L|
                {
                    &&& *l == old(self).launcher()
                    &&& *final(l) == final(self).launcher()
                    &&& #[trigger] call_ensures(L::launch, (l, program, args, input, cwd), r)
                },
    {
        let r = self.launcher.launch(program, args, input, cwd);
        self.log = Ghost(self.log@.push(exchange_of(program, args, input, cwd, r)));
        r
    }
}

/// What [`ScriptedRunner`] replies once its script has run out.
pub open spec fn unscripted() -> OutputView {
    OutputView {
        success: false,
        code: Some(1),
        stdout: Seq::empty(),
        stderr: "no scripted response"@,
    }
}

/// The calls of a log.
pub open spec fn calls_of(log: Seq<Exchange>) -> Seq<CallView> {
    log.map_values(|e: Exchange| e.call)
}

/// A test double: serves canned responses in the order in which they were
/// queued and records every call.
pub struct ScriptedRunner {
    responses: Vec<ProcessOutput>,
    calls: Vec<Call>,
    log: Ghost<Seq<Exchange>>,
}

impl ScriptedRunner {
    #[verifier::type_invariant]
    spec fn inv(self) -> bool {
        self.calls@.map_values(|c: Call| c@) == calls_of(self.log@)
    }

    /// The responses that were queued and not yet served.
    pub closed spec fn pending(self) -> Seq<OutputView> {
        self.responses@.map_values(|o: ProcessOutput| o@)
    }

    /// Creates an empty scripted runner.
    pub fn new() -> (r: Self)
        ensures
            r.pending() == Seq::<OutputView>::empty(),
            r.log() == Seq::<Exchange>::empty(),
    {
        let calls: Vec<Call> = Vec::new();
        assert(calls@.map_values(|c: Call| c@) == calls_of(Seq::empty()));
        let r = ScriptedRunner { responses: Vec::new(), calls, log: Ghost(Seq::empty()) };
        assert(r.pending() == Seq::<OutputView>::empty());
        r
    }

    /// Queues one response; calls beyond the queue fail.
    pub fn push(&mut self, success: bool, stdout: &str, stderr: &str)
        ensures
            final(self).log() == old(self).log(),
            final(self).pending() == old(self).pending().push(
                OutputView {
                    success,
                    code: Some(if success { 0i32 } else { 1i32 }),
                    stdout: stdout@,
                    stderr: stderr@,
                },
            ),
    {
        proof {
            use_type_invariant(&*self);
        }
        let code: i32 = if success { 0 } else { 1 };
        let output = ProcessOutput {
            success,
            code: Some(code),
            stdout: stdout.to_owned(),
            stderr: stderr.to_owned(),
        };
        let mut responses: Vec<ProcessOutput> = Vec::new();
        std::mem::swap(&mut responses, &mut self.responses);
        responses.push(output);
        self.responses = responses;
        assert(self.pending() == old(self).pending().push(output@));
    }

    /// How many invocations have been recorded.
    pub fn call_count(&self) -> (r: usize)
        ensures
            r == self.log().len(),
    {
        proof {
            use_type_invariant(self);
            assert(self.calls@.map_values(|c: Call| c@).len() == self.calls@.len());
        }
        self.calls.len()
    }

    /// A copy of every invocation, in order.
    pub fn calls(&self) -> (r: Vec<Call>)
        ensures
            r@.map_values(|c: Call| c@) == calls_of(self.log()),
    {
        proof {
            use_type_invariant(self);
        }
        let ghost all = self.calls@.map_values(|c: Call| c@);
        let mut out: Vec<Call> = Vec::new();
        let mut i: usize = 0;
        while i < self.calls.len()
            invariant
                i <= self.calls.len(),
                all == self.calls@.map_values(|c: Call| c@),
                out@.map_values(|c: Call| c@) == all.take(i as int),
            decreases self.calls.len() - i,
        {
            let call = self.calls[i].clone();
            let ghost before = out@.map_values(|c: Call| c@);
            out.push(call);
            assert(out@.map_values(|c: Call| c@) == before.push(call@));
            assert(all.take(i + 1) == all.take(i as int).push(all[i as int]));
            i += 1;
        }
        assert(all.take(all.len() as int) == all);
        out
    }
}

impl ProcessRunner for ScriptedRunner {
    closed spec fn log(&self) -> Seq<Exchange> {
        self.log@
    }

    /// The replies are the queued ones, in order, and failures after them.
    open spec fn may_reply(&self, k: int, e: Exchange) -> bool {
        e.reply == Ok::<OutputView, Seq<char>>(
            if 0 <= k < self.pending().len() {
                self.pending()[k]
            } else {
                unscripted()
            },
        )
    }

    fn run(
        &mut self,
        program: &str,
        args: &Vec<String>,
        input: Option<&str>,
        cwd: Option<&str>,
    ) -> (r: Result<ProcessOutput, String>)
        ensures
            old(self).pending().len() > 0 ==> reply_view(r) == Ok::<_, Seq<char>>(
                old(self).pending()[0],
            ) && final(self).pending() == old(self).pending().drop_first(),
            old(self).pending().len() == 0 ==> reply_view(r) == Ok::<_, Seq<char>>(unscripted())
                && final(self).pending() == old(self).pending(),
    {
        proof {
            use_type_invariant(&*self);
        }
        let call = Call {
            program: program.to_owned(),
            args: text::clone_strings(args),
            stdin: own_option(input),
            cwd: own_option(cwd),
        };
        let ghost log = self.log@;
        let ghost made = self.calls@;
        let ghost queued = self.responses@;
        let mut whole = ScriptedRunner::new();
        std::mem::swap(&mut whole, self);
        let ScriptedRunner { mut responses, mut calls, log: _ } = whole;
        let output = if responses.len() > 0 {
            responses.remove(0)
        } else {
            ProcessOutput {
                success: false,
                code: Some(1),
                stdout: String::new(),
                stderr: "no scripted response".to_owned(),
            }
        };
        calls.push(call);
        let ghost exchange = Exchange { call: call@, reply: Ok(output@) };
        proof {
            let f = |c: Call| c@;
            assert(calls@.map_values(f) == made.map_values(f).push(call@));
            assert(calls_of(log.push(exchange)) == calls_of(log).push(call@));
            let g = |o: ProcessOutput| o@;
            if queued.len() > 0 {
                assert(responses@.map_values(g) == queued.map_values(g).drop_first());
            }
        }
        *self = ScriptedRunner { responses, calls, log: Ghost(log.push(exchange)) };
        Ok(output)
    }
}

} // verus!
