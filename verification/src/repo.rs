//! Repository discovery and scope resolution.
//!
//! The facts about directories and repositories come from outside (the `git`
//! binary and the file system); the functions here decide what they mean.
//!
//! Scope resolution decides *which* repository a scan targets when paths
//! are given on the command line: the first scope path's repository wins,
//! with fallbacks walking back toward the current directory and warnings
//! describing what was chosen.

use crate::config;
use crate::matcher;
use crate::path;
use crate::text;
use vstd::prelude::*;
use vstd::string::*;

verus! {

/// The mathematical content of a [`RepoInfo`].
#[verifier::ext_equal]
pub struct RepoView {
    pub root: Seq<char>,
    pub commit: Option<Seq<char>>,
    pub is_repo: bool,
    pub remote: Option<Seq<char>>,
}

/// Information about the repository a scan runs in.
#[derive(Debug, PartialEq, Eq)]
pub struct RepoInfo {
    /// Absolute path of the repository root.
    pub root: String,
    /// Current `HEAD` commit hash, when the repo has commits.
    pub commit: Option<String>,
    /// Whether `root` is an actual git repository (as opposed to a
    /// fallback directory with no version control).
    pub is_repo: bool,
    /// The `origin` remote URL, when the repo has one.
    pub remote: Option<String>,
}

impl View for RepoInfo {
    type V = RepoView;

    open spec fn view(&self) -> RepoView {
        RepoView {
            root: self.root@,
            commit: matcher::text_option(self.commit),
            is_repo: self.is_repo,
            remote: matcher::text_option(self.remote),
        }
    }
}

impl Clone for RepoInfo {
    fn clone(&self) -> (r: Self)
        ensures
            r == *self,
    {
        RepoInfo {
            root: self.root.clone(),
            commit: config::clone_option(&self.commit),
            is_repo: self.is_repo,
            remote: config::clone_option(&self.remote),
        }
    }
}

/// An optional text without the whitespace around it.
pub open spec fn trimmed_option(s: Option<Seq<char>>) -> Option<Seq<char>> {
    match s {
        Some(t) => Some(text::trim_both(t)),
        None => None,
    }
}

/// The repository that the answers of `git` describe, when there is one.
pub open spec fn described(
    toplevel: Option<Seq<char>>,
    head: Option<Seq<char>>,
    origin: Option<Seq<char>>,
) -> Option<RepoView> {
    match toplevel {
        Some(t) => Some(
            RepoView {
                root: text::trim_both(t),
                commit: trimmed_option(head),
                is_repo: true,
                remote: trimmed_option(origin),
            },
        ),
        None => None,
    }
}

/// The content of an optional repository.
pub open spec fn repo_option(r: Option<RepoInfo>) -> Option<RepoView> {
    match r {
        Some(repo) => Some(repo@),
        None => None,
    }
}

/// `s` without the whitespace around it.
pub fn trim(s: &str) -> (r: String)
    ensures
        r@ == text::trim_both(s@),
{
    text::string_of(&text::trim_chars(&text::chars_of(s)))
}

/// The repository that contains a directory, given what `git` printed there
/// for `rev-parse --show-toplevel`, `rev-parse HEAD` and
/// `remote get-url origin` (`None` for a command that failed).
///
/// Returns `None` when the directory is not inside a git work tree or when
/// `git` is unavailable.
pub fn discover_repo(
    toplevel: Option<String>,
    head: Option<String>,
    origin: Option<String>,
) -> (r: Option<RepoInfo>)
    ensures
        repo_option(r) == described(
            matcher::text_option(toplevel),
            matcher::text_option(head),
            matcher::text_option(origin),
        ),
{
    match toplevel {
        None => None,
        Some(t) => {
            let commit = match head {
                Some(h) => Some(trim(h.as_str())),
                None => None,
            };
            let remote = match origin {
                Some(o) => Some(trim(o.as_str())),
                None => None,
            };
            Some(RepoInfo { root: trim(t.as_str()), commit, is_repo: true, remote })
        },
    }
}

/// A directory without version control, taken as a repository.
pub open spec fn plain_dir(root: Seq<char>) -> RepoView {
    RepoView { root, commit: None, is_repo: false, remote: None }
}

/// A fallback repository info for paths outside any git repository.
pub fn no_repo(root: String) -> (r: RepoInfo)
    ensures
        r@ == plain_dir(root@),
{
    RepoInfo { root, commit: None, is_repo: false, remote: None }
}

/// The outcome of resolving the scan scope: the target repository plus the
/// scope targets and any warnings about what was chosen.
#[derive(Debug, PartialEq, Eq)]
pub struct ResolvedScope {
    /// The repository the scan targets.
    pub repo: RepoInfo,
    /// The scope targets, canonicalized and relative to the repository root
    /// (the root itself is `.`); a target outside it stays absolute.
    pub targets: Vec<String>,
    /// Human-readable warnings (multi-repo scope, non-git fallback, ...).
    pub warnings: Vec<String>,
}

/// Errors produced while resolving the scan scope.
#[derive(Debug, PartialEq, Eq)]
pub enum RepoError {
    /// A scope path does not exist.
    MissingPath(String),
    /// A git or filesystem operation failed.
    Io(String),
}

impl RepoError {
    /// The text of [`Self::message`].
    pub open spec fn text(self) -> Seq<char> {
        match self {
            RepoError::MissingPath(path) => "path does not exist: "@ + path@,
            RepoError::Io(message) => message@,
        }
    }

    /// A human-readable description of the error.
    pub fn message(&self) -> (r: String)
        ensures
            r@ == self.text(),
    {
        match self {
            RepoError::MissingPath(path) => {
                let mut s = "path does not exist: ".to_owned();
                s.append(path.as_str());
                s
            },
            RepoError::Io(message) => message.clone(),
        }
    }
}

/// What is known of one scope path.
#[derive(Debug)]
pub struct ScopePath {
    /// The path as given, read from the start directory.
    pub path: String,
    /// The canonical form of the path; `None` when it does not exist.
    pub canonical: Option<String>,
    /// Whether the path names a file.
    pub is_file: bool,
    /// The repository that contains the path's directory (see
    /// [`target_dir`]), or why it could not be told.
    pub repo: Result<Option<RepoInfo>, String>,
}

/// The directory of a scope target: the target itself, or its parent when it
/// is a file.
pub open spec fn dir_of(target: Seq<char>, is_file: bool) -> Seq<char> {
    if is_file {
        match path::parent_of(target) {
            Some(p) => p,
            None => target,
        }
    } else {
        target
    }
}

/// A file stands for the directory that it is in, a directory for itself.
pub proof fn law_files_stand_for_their_directory(dir: Seq<char>, name: Seq<char>)
    requires
        dir.len() > 0,
        dir.last() != '/' && dir.last() != '.',
        name.len() > 0,
        !name.contains('/'),
        name != seq!['.'],
    ensures
        dir_of(path::joined(dir, name), true) == dir,
        dir_of(path::joined(dir, name), false) == path::joined(dir, name),
{
    path::law_the_parent_is_the_directory(dir, name);
}

/// The directory to run git discovery in for a scope target: the target
/// itself, or its parent when it is a file.
pub fn target_dir(target: &str, is_file: bool) -> (r: String)
    ensures
        r@ == dir_of(target@, is_file),
{
    if is_file {
        match path::parent(target) {
            Some(p) => p,
            None => target.to_owned(),
        }
    } else {
        target.to_owned()
    }
}

/// What became of a scope.
pub enum ScopeOutcome {
    /// The path does not exist.
    Missing(Seq<char>),
    /// A repository could not be told.
    Failed(Seq<char>),
    /// The repository, the targets and the warnings.
    Resolved(RepoView, Seq<Seq<char>>, Seq<Seq<char>>),
}

/// The warning for a directory outside version control.
pub open spec fn no_sink_warning(base: Seq<char>, root: Seq<char>) -> Seq<char> {
    base + " is not inside a git repository; using "@ + root
        + " as the base directory (no forge sink)"@
}

/// The warning for a target that falls back to the repository at `root`.
pub open spec fn fallback_warning(target: Seq<char>, root: Seq<char>) -> Seq<char> {
    target + " is not inside a git repository; using the repository at "@ + root
}

/// The warning for a target in another repository.
pub open spec fn span_warning(root: Seq<char>, other: Seq<char>) -> Seq<char> {
    "scope spans multiple repositories; using "@ + root + " and ignoring "@ + other
}

/// The position of the first of the first `k` scope paths that does not
/// exist.
pub open spec fn first_missing(scope: Seq<ScopePath>, k: int) -> Option<int>
    decreases k,
{
    if k <= 0 {
        None
    } else if first_missing(scope, k - 1) is Some {
        first_missing(scope, k - 1)
    } else if scope[k - 1].canonical is None {
        Some(k - 1)
    } else {
        None
    }
}

/// The canonical form of a scope path.
pub open spec fn canonical_of(p: ScopePath) -> Seq<char> {
    match p.canonical {
        Some(c) => c@,
        None => Seq::empty(),
    }
}

/// The repository for the first scope path, with the warnings so far: its own
/// repository, else the one that contains the start directory, else its
/// directory. `Err` when a repository could not be told.
pub open spec fn first_choice(
    start_repo: Result<Option<RepoInfo>, String>,
    first: ScopePath,
) -> Result<(RepoView, Seq<Seq<char>>), Seq<char>> {
    match first.repo {
        Err(m) => Err(m@),
        Ok(Some(r)) => Ok((r@, Seq::empty())),
        Ok(None) => match start_repo {
            Err(m) => Err(m@),
            Ok(Some(r)) => Ok((r@, seq![fallback_warning(canonical_of(first), r.root@)])),
            Ok(None) => Ok((plain_dir(dir_of(canonical_of(first), first.is_file)), Seq::empty())),
        },
    }
}

/// The warnings for the scope paths `1..k` that lie in another repository
/// than the one at `root`. `Err` when a repository could not be told.
pub open spec fn span_warnings(scope: Seq<ScopePath>, root: Seq<char>, k: int) -> Result<
    Seq<Seq<char>>,
    Seq<char>,
>
    decreases k,
{
    if k <= 1 {
        Ok(Seq::empty())
    } else {
        match span_warnings(scope, root, k - 1) {
            Err(m) => Err(m),
            Ok(ws) => match scope[k - 1].repo {
                Err(m) => Err(m@),
                Ok(Some(r)) if path::parts(r.root@) != path::parts(root) => Ok(
                    ws.push(span_warning(root, r.root@)),
                ),
                Ok(_) => Ok(ws),
            },
        }
    }
}

/// A target as seen from the repository root; the root itself is `.`.
pub open spec fn rebased(target: Seq<char>, root: Seq<char>) -> Seq<char> {
    let rel = path::relative(target, root);
    if rel.len() == 0 {
        "."@
    } else {
        rel
    }
}

/// What becomes of a scope that is read from `start`.
pub open spec fn scope_outcome(
    start: Seq<char>,
    start_repo: Result<Option<RepoInfo>, String>,
    scope: Seq<ScopePath>,
) -> ScopeOutcome {
    if scope.len() == 0 {
        match start_repo {
            Err(m) => ScopeOutcome::Failed(m@),
            Ok(found) => {
                let repo = match found {
                    Some(r) => r@,
                    None => plain_dir(start),
                };
                ScopeOutcome::Resolved(
                    repo,
                    Seq::empty(),
                    if repo.is_repo {
                        Seq::empty()
                    } else {
                        seq![no_sink_warning(start, repo.root)]
                    },
                )
            },
        }
    } else {
        match first_missing(scope, scope.len() as int) {
            Some(k) => ScopeOutcome::Missing(path::joined(start, scope[k].path@)),
            None => match first_choice(start_repo, scope[0]) {
                Err(m) => ScopeOutcome::Failed(m),
                Ok((repo, ws)) => match span_warnings(scope, repo.root, scope.len() as int) {
                    Err(m) => ScopeOutcome::Failed(m),
                    Ok(spans) => ScopeOutcome::Resolved(
                        repo,
                        Seq::new(
                            scope.len(),
                            |k: int| rebased(canonical_of(scope[k]), repo.root),
                        ),
                        ws + spans + (if repo.is_repo {
                            Seq::empty()
                        } else {
                            seq![
                                no_sink_warning(
                                    dir_of(canonical_of(scope[0]), scope[0].is_file),
                                    repo.root,
                                ),
                            ]
                        }),
                    ),
                },
            },
        }
    }
}

/// The warning for a directory outside version control.
fn warn_no_sink(base: &str, root: &str) -> (r: String)
    ensures
        r@ == no_sink_warning(base@, root@),
{
    let mut s = base.to_owned();
    s.append(" is not inside a git repository; using ");
    s.append(root);
    s.append(" as the base directory (no forge sink)");
    s
}

/// Resolves the repository a scan should target.
///
/// - With an empty scope, the repository containing `start` is used.
/// - Otherwise the *first* path decides the repository: its own deepest git
///   root, or (walking back toward `start`) the repository containing
///   `start`, or (failing both) the path itself as a fallback root with no
///   version control. Paths that resolve to a different repository than the
///   chosen one produce a warning; the first repository still wins.
///
/// # Errors
///
/// Returns [`RepoError::MissingPath`] for the first scope path that does not
/// exist, and [`RepoError::Io`] when a repository that matters could not be
/// told.
pub fn resolve_scope(
    start: &str,
    start_repo: &Result<Option<RepoInfo>, String>,
    scope: &Vec<ScopePath>,
) -> (r: Result<ResolvedScope, RepoError>)
    ensures
        match (r, scope_outcome(start@, *start_repo, scope@)) {
            (Ok(s), ScopeOutcome::Resolved(repo, targets, warnings)) => s.repo@ == repo
                && text::texts(s.targets@) == targets && text::texts(s.warnings@) == warnings,
            (Err(RepoError::MissingPath(p)), ScopeOutcome::Missing(q)) => p@ == q,
            (Err(RepoError::Io(m)), ScopeOutcome::Failed(n)) => m@ == n,
            _ => false,
        },
{
    if scope.len() == 0 {
        return resolve_empty(start, start_repo);
    }
    let mut i: usize = 0;
    while i < scope.len()
        invariant
            i <= scope.len(),
            scope.len() > 0,
            first_missing(scope@, i as int) is None,
        decreases scope.len() - i,
    {
        if scope[i].canonical.is_none() {
            proof {
                lemma_first_missing(scope@, i + 1, scope@.len() as int);
            }
            return Err(RepoError::MissingPath(path::join(start, scope[i].path.as_str())));
        }
        i += 1;
    }
    proof {
        lemma_none_missing(scope@, scope@.len() as int);
    }
    let mut warnings: Vec<String> = Vec::new();
    let (repo, base) = match resolve_first_target(start_repo, &scope[0], &mut warnings) {
        Ok(choice) => choice,
        Err(message) => {
            return Err(RepoError::Io(message));
        },
    };
    match warn_spans(scope, repo.root.as_str(), &mut warnings) {
        Ok(()) => {},
        Err(message) => {
            return Err(RepoError::Io(message));
        },
    }
    let ghost before = text::texts(warnings@);
    if !repo.is_repo {
        warnings.push(warn_no_sink(base.as_str(), repo.root.as_str()));
        assert(text::texts(warnings@) == before.push(text::texts(warnings@).last()));
    }
    assert(before + Seq::<Seq<char>>::empty() == before);
    let targets = rebase_targets(scope, repo.root.as_str());
    Ok(ResolvedScope { repo, targets, warnings })
}

proof fn lemma_first_missing(scope: Seq<ScopePath>, i: int, k: int)
    requires
        0 <= i <= k,
        first_missing(scope, i) is Some,
    ensures
        first_missing(scope, k) == first_missing(scope, i),
    decreases k - i,
{
    if i < k {
        lemma_first_missing(scope, i, k - 1);
    }
}

proof fn lemma_none_missing(scope: Seq<ScopePath>, k: int)
    requires
        first_missing(scope, k) is None,
    ensures
        forall|j: int| 0 <= j < k ==> (#[trigger] scope[j]).canonical is Some,
    decreases k,
{
    if k > 0 {
        lemma_none_missing(scope, k - 1);
    }
}

/// Resolves the repository for an empty scope.
fn resolve_empty(start: &str, start_repo: &Result<Option<RepoInfo>, String>) -> (r: Result<
    ResolvedScope,
    RepoError,
>)
    ensures
        match (r, scope_outcome(start@, *start_repo, Seq::empty())) {
            (Ok(s), ScopeOutcome::Resolved(repo, targets, warnings)) => s.repo@ == repo
                && text::texts(s.targets@) == targets && text::texts(s.warnings@) == warnings,
            (Err(RepoError::Io(m)), ScopeOutcome::Failed(n)) => m@ == n,
            _ => false,
        },
{
    let repo = match start_repo {
        Err(message) => {
            return Err(RepoError::Io(message.clone()));
        },
        Ok(Some(repo)) => repo.clone(),
        Ok(None) => no_repo(start.to_owned()),
    };
    let mut warnings: Vec<String> = Vec::new();
    if !repo.is_repo {
        let w = warn_no_sink(start, repo.root.as_str());
        warnings.push(w);
        assert(text::texts(warnings@) == seq![w@]);
    } else {
        assert(text::texts(warnings@) == Seq::<Seq<char>>::empty());
    }
    let targets: Vec<String> = Vec::new();
    assert(text::texts(targets@) == Seq::<Seq<char>>::empty());
    Ok(ResolvedScope { repo, targets, warnings })
}

/// Resolves the repository for the first scope target, and its directory.
///
/// Preference order: the target's own deepest git root, then (walking back
/// toward the start directory) the repository containing that, then the
/// target itself as a fallback root.
fn resolve_first_target(
    start_repo: &Result<Option<RepoInfo>, String>,
    first: &ScopePath,
    warnings: &mut Vec<String>,
) -> (r: Result<(RepoInfo, String), String>)
    requires
        first.canonical is Some,
        old(warnings)@.len() == 0,
    ensures
        match (r, first_choice(*start_repo, *first)) {
            (Ok((repo, base)), Ok((expected, ws))) => repo@ == expected && base@ == dir_of(
                canonical_of(*first),
                first.is_file,
            ) && text::texts(final(warnings)@) == ws,
            (Err(m), Err(n)) => m@ == n,
            _ => false,
        },
{
    let target = match &first.canonical {
        Some(c) => c.clone(),
        None => String::new(),
    };
    let base = target_dir(target.as_str(), first.is_file);
    assert(text::texts(warnings@) == Seq::<Seq<char>>::empty());
    match &first.repo {
        Err(message) => {
            return Err(message.clone());
        },
        Ok(Some(repo)) => {
            return Ok((repo.clone(), base));
        },
        Ok(None) => {},
    }
    match start_repo {
        Err(message) => Err(message.clone()),
        Ok(Some(repo)) => {
            let mut s = target.clone();
            s.append(" is not inside a git repository; using the repository at ");
            s.append(repo.root.as_str());
            warnings.push(s);
            assert(text::texts(warnings@) == seq![s@]);
            Ok((repo.clone(), base))
        },
        Ok(None) => {
            let root = base.clone();
            Ok((no_repo(root), base))
        },
    }
}

/// Adds a warning for every further scope path in another repository.
fn warn_spans(scope: &Vec<ScopePath>, root: &str, warnings: &mut Vec<String>) -> (r: Result<
    (),
    String,
>)
    requires
        scope.len() > 0,
    ensures
        match (r, span_warnings(scope@, root@, scope@.len() as int)) {
            (Ok(()), Ok(ws)) => text::texts(final(warnings)@) == text::texts(old(warnings)@) + ws,
            (Err(m), Err(n)) => m@ == n,
            _ => false,
        },
{
    let ghost before = text::texts(warnings@);
    let mut i: usize = 1;
    assert(before + Seq::<Seq<char>>::empty() == before);
    while i < scope.len()
        invariant
            1 <= i <= scope.len(),
            span_warnings(scope@, root@, i as int) matches Ok(ws) && text::texts(warnings@)
                == before + ws,
        decreases scope.len() - i,
    {
        let ghost step = text::texts(warnings@);
        let ghost sofar = span_warnings(scope@, root@, i as int)->Ok_0;
        match &scope[i].repo {
            Err(message) => {
                proof {
                    lemma_span_error(scope@, root@, i + 1, scope@.len() as int);
                }
                return Err(message.clone());
            },
            Ok(Some(other)) => {
                if !path::same_path(other.root.as_str(), root) {
                    let mut s = "scope spans multiple repositories; using ".to_owned();
                    s.append(root);
                    s.append(" and ignoring ");
                    s.append(other.root.as_str());
                    warnings.push(s);
                    proof {
                        assert(text::texts(warnings@) == step.push(s@));
                        assert((before + sofar).push(s@) == before + sofar.push(s@));
                    }
                }
            },
            Ok(None) => {},
        }
        i += 1;
    }
    Ok(())
}

proof fn lemma_span_error(scope: Seq<ScopePath>, root: Seq<char>, i: int, k: int)
    requires
        1 <= i <= k,
        span_warnings(scope, root, i) is Err,
    ensures
        span_warnings(scope, root, k) == span_warnings(scope, root, i),
    decreases k - i,
{
    if i < k {
        lemma_span_error(scope, root, i, k - 1);
    }
}

/// The scope targets as seen from `root`.
fn rebase_targets(scope: &Vec<ScopePath>, root: &str) -> (r: Vec<String>)
    ensures
        text::texts(r@) == Seq::new(
            scope@.len(),
            |k: int| rebased(canonical_of(scope@[k]), root@),
        ),
{
    let ghost all = Seq::new(scope@.len(), |k: int| rebased(canonical_of(scope@[k]), root@));
    let mut out: Vec<String> = Vec::new();
    let mut i: usize = 0;
    while i < scope.len()
        invariant
            i <= scope.len(),
            all == Seq::new(scope@.len(), |k: int| rebased(canonical_of(scope@[k]), root@)),
            text::texts(out@) == all.take(i as int),
        decreases scope.len() - i,
    {
        let ghost before = text::texts(out@);
        let target = match &scope[i].canonical {
            Some(c) => c.clone(),
            None => String::new(),
        };
        let rel = path::relative_to(target.as_str(), root);
        let entry = if rel.as_str().is_empty() {
            ".".to_owned()
        } else {
            rel
        };
        out.push(entry);
        proof {
            assert(text::texts(out@) == before.push(entry@));
            assert(all[i as int] == entry@);
        }
        i += 1;
    }
    assert(all.take(scope.len() as int) == all);
    out
}

/// Without a scope the repository of the start directory is used; outside of
/// one the start directory itself, with a warning; and what cannot be told
/// fails.
pub proof fn law_the_start_is_the_scope(
    start: Seq<char>,
    start_repo: Result<Option<RepoInfo>, String>,
)
    ensures
        ({
            let none = Seq::<Seq<char>>::empty();
            let o = scope_outcome(start, start_repo, Seq::empty());
            match start_repo {
                Err(m) => o == ScopeOutcome::Failed(m@),
                Ok(Some(r)) => r.is_repo ==> o == ScopeOutcome::Resolved(r@, none, none),
                Ok(None) => o == ScopeOutcome::Resolved(
                    RepoView { root: start, commit: None, is_repo: false, remote: None },
                    none,
                    seq![
                        start + " is not inside a git repository; using "@ + start
                            + " as the base directory (no forge sink)"@,
                    ],
                ),
            }
        }),
{
}

/// The first path of a scope that does not exist is named, read from the
/// start directory.
pub proof fn law_missing_paths_are_named(
    start: Seq<char>,
    start_repo: Result<Option<RepoInfo>, String>,
    scope: Seq<ScopePath>,
    k: int,
)
    requires
        0 <= k < scope.len(),
        scope[k].canonical is None,
        forall|j: int| 0 <= j < k ==> (#[trigger] scope[j]).canonical is Some,
    ensures
        scope_outcome(start, start_repo, scope) == ScopeOutcome::Missing(
            path::joined(start, scope[k].path@),
        ),
{
    lemma_first_missing_is(scope, k, scope.len() as int);
}

proof fn lemma_first_missing_is(scope: Seq<ScopePath>, k: int, n: int)
    requires
        0 <= k < n <= scope.len(),
        scope[k].canonical is None,
        forall|j: int| 0 <= j < k ==> (#[trigger] scope[j]).canonical is Some,
    ensures
        first_missing(scope, n) == Some(k),
    decreases n,
{
    if n == k + 1 {
        lemma_all_exist(scope, k);
    } else {
        lemma_first_missing_is(scope, k, n - 1);
    }
}

proof fn lemma_all_exist(scope: Seq<ScopePath>, n: int)
    requires
        0 <= n <= scope.len(),
        forall|j: int| 0 <= j < n ==> (#[trigger] scope[j]).canonical is Some,
    ensures
        first_missing(scope, n) is None,
    decreases n,
{
    if n > 0 {
        lemma_all_exist(scope, n - 1);
    }
}

/// A scope of paths that all exist resolves to the repository of the first
/// one, else to that of the start directory, else to the directory of the
/// first one; its targets are the paths as seen from there, with `.` for the
/// directory itself.
pub proof fn law_targets_are_seen_from_the_repository(
    start: Seq<char>,
    start_repo: Result<Option<RepoInfo>, String>,
    scope: Seq<ScopePath>,
)
    requires
        scope.len() > 0,
        forall|j: int| 0 <= j < scope.len() ==> (#[trigger] scope[j]).canonical is Some,
        forall|j: int| 0 <= j < scope.len() ==> (#[trigger] scope[j]).repo is Ok,
        start_repo is Ok,
    ensures
        scope_outcome(start, start_repo, scope) matches ScopeOutcome::Resolved(
            repo,
            targets,
            warnings,
        ) && {
            &&& scope[0].repo->Ok_0 is Some ==> repo == (scope[0].repo->Ok_0->0)@
            &&& scope[0].repo->Ok_0 is None && start_repo->Ok_0 is Some ==> repo == (
            start_repo->Ok_0->0)@
            &&& scope[0].repo->Ok_0 is None && start_repo->Ok_0 is None ==> {
                &&& !repo.is_repo
                &&& !scope[0].is_file ==> repo.root == (scope[0].canonical->0)@
            }
            &&& targets.len() == scope.len()
            &&& forall|j: int|
                0 <= j < scope.len() ==> {
                    let rel = path::relative((scope[j].canonical->0)@, repo.root);
                    #[trigger] targets[j] == (if rel.len() == 0 {
                        "."@
                    } else {
                        rel
                    })
                }
        },
{
    lemma_all_exist(scope, scope.len() as int);
    let root = (first_choice(start_repo, scope[0])->Ok_0).0.root;
    lemma_spans_known(scope, root, scope.len() as int);
}

proof fn lemma_spans_known(scope: Seq<ScopePath>, root: Seq<char>, k: int)
    requires
        0 <= k <= scope.len(),
        forall|j: int| 0 <= j < scope.len() ==> (#[trigger] scope[j]).repo is Ok,
    ensures
        span_warnings(scope, root, k) is Ok,
        forall|j: int|
            1 <= j < k && ((#[trigger] scope[j]).repo->Ok_0 matches Some(r) && path::parts(r.root@)
                != path::parts(root)) ==> span_warnings(scope, root, k)->Ok_0.contains(
                "scope spans multiple repositories; using "@ + root + " and ignoring "@ + (
                scope[j].repo->Ok_0->0).root@,
            ),
        (forall|j: int|
            1 <= j < k ==> ((#[trigger] scope[j]).repo->Ok_0 matches Some(r) ==> path::parts(
                r.root@,
            ) == path::parts(root))) ==> span_warnings(scope, root, k)->Ok_0.len() == 0,
    decreases k,
{
    if k > 1 {
        lemma_spans_known(scope, root, k - 1);
        let low = span_warnings(scope, root, k - 1)->Ok_0;
        let all = span_warnings(scope, root, k)->Ok_0;
        assert forall|x: Seq<char>| low.contains(x) implies all.contains(x) by {
            let i = choose|i: int| 0 <= i < low.len() && low[i] == x;
            assert(all[i] == x);
        }
        assert forall|j: int|
            1 <= j < k && ((#[trigger] scope[j]).repo->Ok_0 matches Some(r) && path::parts(r.root@)
                != path::parts(root)) implies all.contains(
            "scope spans multiple repositories; using "@ + root + " and ignoring "@ + (
            scope[j].repo->Ok_0->0).root@,
        ) by {
            if j == k - 1 {
                assert(all[low.len() as int] == span_warning(
                    root,
                    (scope[j].repo->Ok_0->0).root@,
                ));
            }
        }
    }
}

/// Every path of a scope that lies in another repository than the one used is
/// warned of, and a scope within one repository gives no warning.
pub proof fn law_other_repositories_are_warned_of(
    start: Seq<char>,
    start_repo: Result<Option<RepoInfo>, String>,
    scope: Seq<ScopePath>,
    own: RepoInfo,
)
    requires
        scope.len() > 0,
        forall|j: int| 0 <= j < scope.len() ==> (#[trigger] scope[j]).canonical is Some,
        forall|j: int| 0 <= j < scope.len() ==> (#[trigger] scope[j]).repo is Ok,
        scope[0].repo == Ok::<Option<RepoInfo>, String>(Some(own)),
        own.is_repo,
    ensures
        scope_outcome(start, start_repo, scope) matches ScopeOutcome::Resolved(
            repo,
            targets,
            warnings,
        ) && {
            &&& forall|j: int|
                1 <= j < scope.len() && ((#[trigger] scope[j]).repo->Ok_0 matches Some(r)
                    && path::parts(r.root@) != path::parts(own.root@)) ==> warnings.contains(
                    "scope spans multiple repositories; using "@ + own.root@ + " and ignoring "@ + (
                    scope[j].repo->Ok_0->0).root@,
                )
            &&& (forall|j: int|
                1 <= j < scope.len() ==> ((#[trigger] scope[j]).repo->Ok_0 matches Some(r)
                    ==> path::parts(r.root@) == path::parts(own.root@))) ==> warnings.len() == 0
        },
{
    lemma_all_exist(scope, scope.len() as int);
    lemma_spans_known(scope, own.root@, scope.len() as int);
    let spans = span_warnings(scope, own.root@, scope.len() as int)->Ok_0;
    let none = Seq::<Seq<char>>::empty();
    assert(none + spans + none == spans);
}

/// What version control answers, without the whitespace around it, describes
/// the repository; without a top level there is none.
pub proof fn law_repositories_are_described_as_answered(
    toplevel: Option<Seq<char>>,
    head: Option<Seq<char>>,
    origin: Option<Seq<char>>,
)
    ensures
        described(toplevel, head, origin) is Some <==> toplevel is Some,
        described(toplevel, head, origin) matches Some(r) ==> {
            &&& r.is_repo
            &&& r.root == text::trim_both(toplevel->0)
            &&& r.commit is Some <==> head is Some
            &&& head matches Some(h) ==> r.commit == Some(text::trim_both(h))
            &&& r.remote is Some <==> origin is Some
            &&& origin matches Some(o) ==> r.remote == Some(text::trim_both(o))
        },
{
}

/// A scope path in a repository of its own decides the repository, whatever
/// the start directory and the further paths are.
pub proof fn law_first_repository_wins(
    start: Seq<char>,
    start_repo: Result<Option<RepoInfo>, String>,
    scope: Seq<ScopePath>,
    own: RepoInfo,
)
    requires
        scope.len() > 0,
        scope[0].repo == Ok::<Option<RepoInfo>, String>(Some(own)),
    ensures
        scope_outcome(start, start_repo, scope) matches ScopeOutcome::Resolved(repo, targets, _)
            ==> repo == own@ && targets.len() == scope.len(),
{
}

} // verus!
