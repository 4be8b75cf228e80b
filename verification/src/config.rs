//! Layered configuration: defaults, a user config file, a repository config
//! file, and command-line overrides.
//!
//! Precedence, lowest to highest:
//!
//! 1. built-in defaults,
//! 2. `$TODONE_CONFIG` or `$XDG_CONFIG_HOME/todone/config.toml` (or
//!    `~/.config/todone/config.toml`),
//! 3. `<repo root>/todone.toml` (committed, shared with the team),
//! 4. command-line flags ([`CliOverrides`]).
//!
//! A layer only overrides the keys it sets; everything else falls through to
//! the next lower layer.

use crate::matcher;
use crate::matcher::{MatchConfig, MatchConfigError};
use crate::path;
use crate::scan::{ScanOptions, DEFAULT_MAX_FILE_BYTES};
use crate::text;
use vstd::prelude::*;
use vstd::string::*;

verus! {

// ---------------------------------------------------------------------------
// The configuration
// ---------------------------------------------------------------------------

/// Fully resolved configuration after merging all layers.
#[derive(Debug, PartialEq, Eq)]
pub struct Config {
    /// Scanning behavior.
    pub scan: ScanConfig,
    /// Context lines shown around a finding.
    pub context: ContextConfig,
    /// Issue-tracking backend.
    pub forge: ForgeConfig,
    /// Editor used for draft and read-only sessions.
    pub editor: EditorConfig,
}

/// Scanning behavior.
#[derive(Debug, PartialEq, Eq)]
pub struct ScanConfig {
    /// Marker category matching.
    pub match_config: MatchConfig,
    /// Default scope: paths (relative to the repo root) to scan when none
    /// are given on the command line.
    pub paths: Vec<String>,
    /// Glob patterns (relative to the repo root) to exclude.
    pub exclude: Vec<String>,
    /// Files larger than this many bytes are skipped.
    pub max_file_bytes: usize,
}

/// Context lines around a finding, like `grep -A`/`-B`.
#[derive(Debug, Clone, Copy, PartialEq, Eq)]
pub struct ContextConfig {
    /// Lines of context before the finding.
    pub before: usize,
    /// Lines of context after the finding.
    pub after: usize,
    /// Word-wrap long context lines in the review (toggleable with `w`).
    pub wrap: bool,
}

/// Issue-tracking backend selection.
#[derive(Debug, PartialEq, Eq)]
pub struct ForgeConfig {
    /// Backend id (`github`).
    pub kind: String,
}

/// Editor behavior.
#[derive(Debug, PartialEq, Eq)]
pub struct EditorConfig {
    /// Editor command; `None` falls back to `$EDITOR`.
    pub command: Option<String>,
}

/// The mathematical content of a [`Config`].
#[verifier::ext_equal]
pub struct Settings {
    pub matching: matcher::MatchSettings,
    pub paths: Seq<Seq<char>>,
    pub exclude: Seq<Seq<char>>,
    pub max_file_bytes: int,
    pub context: ContextConfig,
    pub forge: Seq<char>,
    pub editor: Option<Seq<char>>,
}

impl View for Config {
    type V = Settings;

    open spec fn view(&self) -> Settings {
        Settings {
            matching: self.scan.match_config@,
            paths: text::texts(self.scan.paths@),
            exclude: text::texts(self.scan.exclude@),
            max_file_bytes: self.scan.max_file_bytes as int,
            context: self.context,
            forge: self.forge.kind@,
            editor: matcher::text_option(self.editor.command),
        }
    }
}

/// A copy of an optional string.
pub fn clone_option(s: &Option<String>) -> (r: Option<String>)
    ensures
        r == *s,
{
    match s {
        Some(t) => Some(t.clone()),
        None => None,
    }
}

impl Clone for Config {
    fn clone(&self) -> (r: Self)
        ensures
            r@ == self@,
    {
        Config {
            scan: ScanConfig {
                match_config: self.scan.match_config.clone(),
                paths: text::clone_strings(&self.scan.paths),
                exclude: text::clone_strings(&self.scan.exclude),
                max_file_bytes: self.scan.max_file_bytes,
            },
            context: self.context,
            forge: ForgeConfig { kind: self.forge.kind.clone() },
            editor: EditorConfig { command: clone_option(&self.editor.command) },
        }
    }
}

/// The built-in configuration.
pub open spec fn default_config() -> Settings {
    Settings {
        matching: matcher::default_settings(),
        paths: Seq::empty(),
        exclude: Seq::empty(),
        max_file_bytes: DEFAULT_MAX_FILE_BYTES as int,
        context: ContextConfig { before: 3, after: 3, wrap: true },
        forge: "github"@,
        editor: None,
    }
}

impl Default for Config {
    fn default() -> (r: Self)
        ensures
            r@ == default_config(),
    {
        let config = Config {
            scan: ScanConfig {
                match_config: MatchConfig::default(),
                paths: Vec::new(),
                exclude: Vec::new(),
                max_file_bytes: DEFAULT_MAX_FILE_BYTES,
            },
            context: ContextConfig { before: 3, after: 3, wrap: true },
            forge: ForgeConfig { kind: "github".to_owned() },
            editor: EditorConfig { command: None },
        };
        assert(config@.paths == Seq::<Seq<char>>::empty());
        assert(config@.exclude == Seq::<Seq<char>>::empty());
        config
    }
}

// ---------------------------------------------------------------------------
// Layers
// ---------------------------------------------------------------------------

/// Partial configuration as written in one file. Every key is optional so a
/// file only overrides what it sets.
#[derive(Debug)]
pub struct ConfigFile {
    /// `[scan]` section.
    pub scan: Option<ScanFile>,
    /// `[context]` section.
    pub context: Option<ContextFile>,
    /// `[forge]` section.
    pub forge: Option<ForgeFile>,
    /// `[editor]` section.
    pub editor: Option<EditorFile>,
}

/// `[scan]` section.
#[derive(Debug)]
pub struct ScanFile {
    /// `[scan.match]` section.
    pub match_config: Option<MatchFile>,
    /// Default scope paths.
    pub paths: Option<Vec<String>>,
    /// Exclude globs.
    pub exclude: Option<Vec<String>>,
    /// Size cap for parsed files.
    pub max_file_bytes: Option<usize>,
}

/// `[scan.match]` section.
#[derive(Debug)]
pub struct MatchFile {
    /// Marker categories.
    pub categories: Option<Vec<String>>,
    /// Whether case matters.
    pub case_sensitive: Option<bool>,
    /// Whether whitespace must precede the category.
    pub require_space_before: Option<bool>,
    /// Whether a colon must follow the category.
    pub require_colon: Option<bool>,
    /// A custom comment pattern.
    pub pattern: Option<String>,
}

/// `[context]` section.
#[derive(Debug)]
pub struct ContextFile {
    /// Context lines before a finding.
    pub before: Option<usize>,
    /// Context lines after a finding.
    pub after: Option<usize>,
    /// Whether long context lines are wrapped.
    pub wrap: Option<bool>,
}

/// `[forge]` section.
#[derive(Debug)]
pub struct ForgeFile {
    /// Backend id.
    pub kind: Option<String>,
}

/// `[editor]` section.
#[derive(Debug)]
pub struct EditorFile {
    /// Editor command.
    pub command: Option<String>,
}

/// Command-line overrides with the same precedence as the CLI flags.
#[derive(Debug)]
pub struct CliOverrides {
    /// `--pattern` category list.
    pub categories: Option<Vec<String>>,
    /// `--case-sensitive` / `--no-case-sensitive`.
    pub case_sensitive: Option<bool>,
    /// `--space` / `--no-space`.
    pub require_space_before: Option<bool>,
    /// `--colon` / `--no-colon`.
    pub require_colon: Option<bool>,
    /// `--match-pattern` custom comment pattern.
    pub match_pattern: Option<String>,
    /// Positional scope paths.
    pub paths: Option<Vec<String>>,
    /// `--exclude` patterns.
    pub exclude: Option<Vec<String>>,
    /// `--max-file-bytes`.
    pub max_file_bytes: Option<usize>,
    /// Context lines before a finding.
    pub context_before: Option<usize>,
    /// Context lines after a finding.
    pub context_after: Option<usize>,
    /// `--wrap` / `--no-wrap`.
    pub wrap: Option<bool>,
    /// `--forge`.
    pub forge: Option<String>,
    /// `--editor`.
    pub editor: Option<String>,
}

/// The keys that a layer sets.
#[verifier::ext_equal]
pub struct Layer {
    pub categories: Option<Seq<Seq<char>>>,
    pub case_sensitive: Option<bool>,
    pub require_space_before: Option<bool>,
    pub require_colon: Option<bool>,
    pub pattern: Option<Seq<char>>,
    pub paths: Option<Seq<Seq<char>>>,
    pub exclude: Option<Seq<Seq<char>>>,
    pub max_file_bytes: Option<usize>,
    pub before: Option<usize>,
    pub after: Option<usize>,
    pub wrap: Option<bool>,
    pub forge: Option<Seq<char>>,
    pub editor: Option<Seq<char>>,
}

/// The texts of an optional list of strings.
pub open spec fn texts_option(v: Option<Vec<String>>) -> Option<Seq<Seq<char>>> {
    match v {
        Some(t) => Some(text::texts(t@)),
        None => None,
    }
}

impl View for ConfigFile {
    type V = Layer;

    open spec fn view(&self) -> Layer {
        let m = match self.scan {
            Some(scan) => scan.match_config,
            None => None,
        };
        Layer {
            categories: match m {
                Some(m) => texts_option(m.categories),
                None => None,
            },
            case_sensitive: match m {
                Some(m) => m.case_sensitive,
                None => None,
            },
            require_space_before: match m {
                Some(m) => m.require_space_before,
                None => None,
            },
            require_colon: match m {
                Some(m) => m.require_colon,
                None => None,
            },
            pattern: match m {
                Some(m) => matcher::text_option(m.pattern),
                None => None,
            },
            paths: match self.scan {
                Some(scan) => texts_option(scan.paths),
                None => None,
            },
            exclude: match self.scan {
                Some(scan) => texts_option(scan.exclude),
                None => None,
            },
            max_file_bytes: match self.scan {
                Some(scan) => scan.max_file_bytes,
                None => None,
            },
            before: match self.context {
                Some(context) => context.before,
                None => None,
            },
            after: match self.context {
                Some(context) => context.after,
                None => None,
            },
            wrap: match self.context {
                Some(context) => context.wrap,
                None => None,
            },
            forge: match self.forge {
                Some(forge) => matcher::text_option(forge.kind),
                None => None,
            },
            editor: match self.editor {
                Some(editor) => matcher::text_option(editor.command),
                None => None,
            },
        }
    }
}

impl View for CliOverrides {
    type V = Layer;

    open spec fn view(&self) -> Layer {
        Layer {
            categories: texts_option(self.categories),
            case_sensitive: self.case_sensitive,
            require_space_before: self.require_space_before,
            require_colon: self.require_colon,
            pattern: matcher::text_option(self.match_pattern),
            paths: texts_option(self.paths),
            exclude: texts_option(self.exclude),
            max_file_bytes: self.max_file_bytes,
            before: self.context_before,
            after: self.context_after,
            wrap: self.wrap,
            forge: matcher::text_option(self.forge),
            editor: matcher::text_option(self.editor),
        }
    }
}

/// A layer that sets nothing.
pub open spec fn empty_layer() -> Layer {
    Layer {
        categories: None,
        case_sensitive: None,
        require_space_before: None,
        require_colon: None,
        pattern: None,
        paths: None,
        exclude: None,
        max_file_bytes: None,
        before: None,
        after: None,
        wrap: None,
        forge: None,
        editor: None,
    }
}

/// The value a layer sets, or the value below it.
pub open spec fn pick<T>(set: Option<T>, below: T) -> T {
    match set {
        Some(value) => value,
        None => below,
    }
}

/// The optional value a layer sets, or the value below it.
pub open spec fn pick_option<T>(set: Option<T>, below: Option<T>) -> Option<T> {
    match set {
        Some(value) => Some(value),
        None => below,
    }
}

/// A configuration with a layer on top: the keys that the layer sets, and the
/// rest as it was.
pub open spec fn with_layer(c: Settings, l: Layer) -> Settings {
    Settings {
        matching: matcher::MatchSettings {
            categories: pick(l.categories, c.matching.categories),
            rule: matcher::MatchRule {
                case_sensitive: pick(l.case_sensitive, c.matching.rule.case_sensitive),
                require_space_before: pick(
                    l.require_space_before,
                    c.matching.rule.require_space_before,
                ),
                require_colon: pick(l.require_colon, c.matching.rule.require_colon),
            },
            pattern: pick_option(l.pattern, c.matching.pattern),
        },
        paths: pick(l.paths, c.paths),
        exclude: pick(l.exclude, c.exclude),
        max_file_bytes: match l.max_file_bytes {
            Some(n) => n as int,
            None => c.max_file_bytes,
        },
        context: ContextConfig {
            before: pick(l.before, c.context.before),
            after: pick(l.after, c.context.after),
            wrap: pick(l.wrap, c.context.wrap),
        },
        forge: pick(l.forge, c.forge),
        editor: pick_option(l.editor, c.editor),
    }
}

/// A layer that sets nothing changes nothing.
pub proof fn law_empty_layer(c: Settings)
    ensures
        with_layer(c, empty_layer()) == c,
{
}

/// A key that a layer sets has that value whatever lies below; a key that it
/// does not set keeps the value below.
pub proof fn law_layer_wins(c: Settings, l: Layer)
    ensures
        ({
            let r = with_layer(c, l);
            &&& r.matching.categories == pick(l.categories, c.matching.categories)
            &&& r.matching.rule.case_sensitive == pick(
                l.case_sensitive,
                c.matching.rule.case_sensitive,
            )
            &&& r.matching.rule.require_space_before == pick(
                l.require_space_before,
                c.matching.rule.require_space_before,
            )
            &&& r.matching.rule.require_colon == pick(
                l.require_colon,
                c.matching.rule.require_colon,
            )
            &&& r.matching.pattern == pick_option(l.pattern, c.matching.pattern)
            &&& r.paths == pick(l.paths, c.paths)
            &&& r.exclude == pick(l.exclude, c.exclude)
            &&& l.max_file_bytes is None ==> r.max_file_bytes == c.max_file_bytes
            &&& l.max_file_bytes matches Some(n) ==> r.max_file_bytes == n
            &&& r.context.before == pick(l.before, c.context.before)
            &&& r.context.after == pick(l.after, c.context.after)
            &&& r.context.wrap == pick(l.wrap, c.context.wrap)
            &&& r.forge == pick(l.forge, c.forge)
            &&& r.editor == pick_option(l.editor, c.editor)
        }),
{
}

/// Applying a layer twice is applying it once.
pub proof fn law_layer_idempotent(c: Settings, l: Layer)
    ensures
        with_layer(with_layer(c, l), l) == with_layer(c, l),
{
}

/// Sets `slot` to `value`, when there is one.
fn put<T: Copy>(slot: &mut T, value: Option<T>)
    ensures
        *final(slot) == pick(value, *old(slot)),
{
    if let Some(v) = value {
        *slot = v;
    }
}

/// Sets `slot` to a copy of `value`, when there is one.
fn put_text(slot: &mut String, value: &Option<String>)
    ensures
        final(slot)@ == pick(matcher::text_option(*value), old(slot)@),
{
    if let Some(v) = value {
        *slot = v.clone();
    }
}

/// Sets `slot` to a copy of `value`, when there is one.
fn put_option(slot: &mut Option<String>, value: &Option<String>)
    ensures
        matcher::text_option(*final(slot)) == pick_option(
            matcher::text_option(*value),
            matcher::text_option(*old(slot)),
        ),
{
    if let Some(v) = value {
        *slot = Some(v.clone());
    }
}

/// Sets `slot` to a copy of `value`, when there is one.
fn put_list(slot: &mut Vec<String>, value: &Option<Vec<String>>)
    ensures
        text::texts(final(slot)@) == pick(texts_option(*value), text::texts(old(slot)@)),
{
    if let Some(v) = value {
        *slot = text::clone_strings(v);
    }
}

impl ConfigFile {
    /// The keys that the file sets.
    pub fn keys(self) -> (r: CliOverrides)
        ensures
            r@ == self@,
    {
        let scan = match self.scan {
            Some(scan) => scan,
            None => ScanFile { match_config: None, paths: None, exclude: None, max_file_bytes: None },
        };
        let m = match scan.match_config {
            Some(m) => m,
            None => MatchFile {
                categories: None,
                case_sensitive: None,
                require_space_before: None,
                require_colon: None,
                pattern: None,
            },
        };
        let context = match self.context {
            Some(context) => context,
            None => ContextFile { before: None, after: None, wrap: None },
        };
        let forge = match self.forge {
            Some(forge) => forge.kind,
            None => None,
        };
        let editor = match self.editor {
            Some(editor) => editor.command,
            None => None,
        };
        CliOverrides {
            categories: m.categories,
            case_sensitive: m.case_sensitive,
            require_space_before: m.require_space_before,
            require_colon: m.require_colon,
            match_pattern: m.pattern,
            paths: scan.paths,
            exclude: scan.exclude,
            max_file_bytes: scan.max_file_bytes,
            context_before: context.before,
            context_after: context.after,
            wrap: context.wrap,
            forge,
            editor,
        }
    }
}

// ---------------------------------------------------------------------------
// Loading
// ---------------------------------------------------------------------------

/// Why a config file could not be used.
#[derive(Debug, PartialEq, Eq)]
pub enum FileFault {
    /// The file could not be read.
    Io(String),
    /// The file is not valid TOML.
    Parse(String),
}

/// A config file that exists: its path and what reading it gave.
#[derive(Debug)]
pub struct ConfigSource {
    /// The file's path.
    pub path: String,
    /// The file's keys, or why it could not be used.
    pub file: Result<ConfigFile, FileFault>,
}

/// Errors produced while loading or validating configuration.
#[derive(Debug, PartialEq, Eq)]
pub enum ConfigError {
    /// A config file could not be read.
    Io {
        /// The config file path.
        path: String,
        /// What went wrong.
        source: String,
    },
    /// A config file is not valid TOML.
    Parse {
        /// The config file path.
        path: String,
        /// What went wrong.
        source: String,
    },
    /// The match configuration is invalid.
    MatchConfig(MatchConfigError),
    /// The configured forge is not supported.
    UnknownForge(String),
}

impl ConfigError {
    /// The text of [`Self::message`].
    pub open spec fn text(self) -> Seq<char> {
        match self {
            ConfigError::Io { path, source } => "failed to read config "@ + path@ + ": "@ + source@,
            ConfigError::Parse { path, source } => "failed to parse config "@ + path@ + ": "@
                + source@,
            ConfigError::MatchConfig(e) => e.text(),
            ConfigError::UnknownForge(kind) => "unknown forge "@ + kind@ + "; supported: github"@,
        }
    }

    /// A human-readable description of the error.
    pub fn message(&self) -> (r: String)
        ensures
            r@ == self.text(),
    {
        match self {
            ConfigError::Io { path, source } => {
                let mut s = "failed to read config ".to_owned();
                s.append(path.as_str());
                s.append(": ");
                s.append(source.as_str());
                s
            },
            ConfigError::Parse { path, source } => {
                let mut s = "failed to parse config ".to_owned();
                s.append(path.as_str());
                s.append(": ");
                s.append(source.as_str());
                s
            },
            ConfigError::MatchConfig(e) => e.message(),
            ConfigError::UnknownForge(kind) => {
                let mut s = "unknown forge ".to_owned();
                s.append(kind.as_str());
                s.append("; supported: github");
                s
            },
        }
    }

    /// Whether the error says that `source` could not be used.
    pub open spec fn blames(self, source: ConfigSource) -> bool {
        match (self, source.file) {
            (ConfigError::Io { path, source: s }, Err(FileFault::Io(m))) => path@ == source.path@
                && s@ == m@,
            (ConfigError::Parse { path, source: s }, Err(FileFault::Parse(m))) => path@
                == source.path@ && s@ == m@,
            _ => false,
        }
    }

    /// Whether the error says why the configuration `c` is invalid.
    pub open spec fn refuses(self, c: Settings) -> bool {
        match self {
            ConfigError::MatchConfig(e) => !c.matching.compiles() && c.matching.refused_with(e),
            ConfigError::UnknownForge(kind) => c.matching.compiles() && c.forge != "github"@
                && kind@ == c.forge,
            _ => false,
        }
    }
}

/// Whether a configuration is internally consistent.
pub open spec fn is_valid(c: Settings) -> bool {
    c.matching.compiles() && c.forge == "github"@
}

/// Whether a configuration is valid by what it holds alone: the supported
/// forge, no custom pattern, and short categories, none blank.
pub open spec fn is_simple(c: Settings) -> bool {
    c.matching.is_simple() && c.forge == "github"@
}

/// A configuration is valid when its match settings compile and its forge is
/// the one that is supported; the error names what is wrong.
pub proof fn law_valid_settings_compile_and_name_github(c: Settings, e: ConfigError)
    ensures
        is_valid(c) <==> c.matching.compiles() && c.forge == "github"@,
        e.refuses(c) ==> !is_valid(c),
        e.refuses(c) && c.matching.compiles() ==> (e matches ConfigError::UnknownForge(kind)
            && kind@ == c.forge),
        e.refuses(c) && !c.matching.compiles() ==> (e matches ConfigError::MatchConfig(m)
            && c.matching.refused_with(m)),
{
}

/// The built-in configuration is simple, so it is valid.
pub proof fn law_the_defaults_are_simple()
    ensures
        is_simple(default_config()),
{
    matcher::lemma_default_is_simple();
}

/// A configuration with an optional config file on top.
pub open spec fn with_source(c: Settings, source: Option<ConfigSource>) -> Settings {
    match source {
        Some(s) => match s.file {
            Ok(file) => with_layer(c, file@),
            Err(_) => c,
        },
        None => c,
    }
}

/// Whether an optional config file could not be used.
pub open spec fn is_broken(source: Option<ConfigSource>) -> bool {
    source matches Some(s) && s.file is Err
}

/// The configuration made of all layers.
pub open spec fn loaded(
    user: Option<ConfigSource>,
    repo: Option<ConfigSource>,
    overrides: Layer,
) -> Settings {
    with_layer(with_source(with_source(default_config(), user), repo), overrides)
}

/// What is set nearest: first on the command line, then in the repository's
/// file, then in the user's file, else the default.
pub open spec fn nearest<T>(flag: Option<T>, repo: Option<T>, user: Option<T>, below: T) -> T {
    if flag is Some {
        flag->0
    } else if repo is Some {
        repo->0
    } else if user is Some {
        user->0
    } else {
        below
    }
}

/// The `[scan]` section of a file that could be used.
pub open spec fn scan_section(source: Option<ConfigSource>) -> Option<ScanFile> {
    match source {
        Some(ConfigSource { path: _, file: Ok(file) }) => file.scan,
        _ => None,
    }
}

/// The `[scan.match]` section of a file that could be used.
pub open spec fn match_section(source: Option<ConfigSource>) -> Option<MatchFile> {
    match scan_section(source) {
        Some(scan) => scan.match_config,
        None => None,
    }
}

/// The `[context]` section of a file that could be used.
pub open spec fn context_section(source: Option<ConfigSource>) -> Option<ContextFile> {
    match source {
        Some(ConfigSource { path: _, file: Ok(file) }) => file.context,
        _ => None,
    }
}

/// The `[forge]` section of a file that could be used.
pub open spec fn forge_section(source: Option<ConfigSource>) -> Option<ForgeFile> {
    match source {
        Some(ConfigSource { path: _, file: Ok(file) }) => file.forge,
        _ => None,
    }
}

/// The `[editor]` section of a file that could be used.
pub open spec fn editor_section(source: Option<ConfigSource>) -> Option<EditorFile> {
    match source {
        Some(ConfigSource { path: _, file: Ok(file) }) => file.editor,
        _ => None,
    }
}

/// The nearest setting of what marks a comment wins, category list and rules
/// each on their own.
pub proof fn law_the_nearest_matching_wins(
    user: Option<ConfigSource>,
    repo: Option<ConfigSource>,
    overrides: CliOverrides,
)
    ensures
        ({
            let c = loaded(user, repo, overrides@);
            &&& c.matching.categories == nearest(
                texts_option(overrides.categories),
                match match_section(repo) {
                    Some(x) => texts_option(x.categories),
                    None => None,
                },
                match match_section(user) {
                    Some(x) => texts_option(x.categories),
                    None => None,
                },
                seq!["TODO"@, "FIXME"@],
            )
            &&& c.matching.rule.case_sensitive == nearest(
                overrides.case_sensitive,
                match match_section(repo) {
                    Some(x) => x.case_sensitive,
                    None => None,
                },
                match match_section(user) {
                    Some(x) => x.case_sensitive,
                    None => None,
                },
                false,
            )
            &&& c.matching.rule.require_space_before == nearest(
                overrides.require_space_before,
                match match_section(repo) {
                    Some(x) => x.require_space_before,
                    None => None,
                },
                match match_section(user) {
                    Some(x) => x.require_space_before,
                    None => None,
                },
                true,
            )
            &&& c.matching.rule.require_colon == nearest(
                overrides.require_colon,
                match match_section(repo) {
                    Some(x) => x.require_colon,
                    None => None,
                },
                match match_section(user) {
                    Some(x) => x.require_colon,
                    None => None,
                },
                false,
            )
        }),
{
}

/// The nearest setting of what is scanned wins, each on its own.
pub proof fn law_the_nearest_scope_wins(
    user: Option<ConfigSource>,
    repo: Option<ConfigSource>,
    overrides: CliOverrides,
)
    ensures
        ({
            let c = loaded(user, repo, overrides@);
            &&& c.paths == nearest(
                texts_option(overrides.paths),
                match scan_section(repo) {
                    Some(x) => texts_option(x.paths),
                    None => None,
                },
                match scan_section(user) {
                    Some(x) => texts_option(x.paths),
                    None => None,
                },
                Seq::<Seq<char>>::empty(),
            )
            &&& c.exclude == nearest(
                texts_option(overrides.exclude),
                match scan_section(repo) {
                    Some(x) => texts_option(x.exclude),
                    None => None,
                },
                match scan_section(user) {
                    Some(x) => texts_option(x.exclude),
                    None => None,
                },
                Seq::<Seq<char>>::empty(),
            )
            &&& c.max_file_bytes == nearest(
                overrides.max_file_bytes,
                match scan_section(repo) {
                    Some(x) => x.max_file_bytes,
                    None => None,
                },
                match scan_section(user) {
                    Some(x) => x.max_file_bytes,
                    None => None,
                },
                10_485_760,
            )
        }),
{
}

/// The nearest setting of the context lines and of the forge wins, each on its
/// own.
pub proof fn law_the_nearest_display_wins(
    user: Option<ConfigSource>,
    repo: Option<ConfigSource>,
    overrides: CliOverrides,
)
    ensures
        ({
            let c = loaded(user, repo, overrides@);
            &&& c.context.before == nearest(
                overrides.context_before,
                match context_section(repo) {
                    Some(x) => x.before,
                    None => None,
                },
                match context_section(user) {
                    Some(x) => x.before,
                    None => None,
                },
                3,
            )
            &&& c.context.after == nearest(
                overrides.context_after,
                match context_section(repo) {
                    Some(x) => x.after,
                    None => None,
                },
                match context_section(user) {
                    Some(x) => x.after,
                    None => None,
                },
                3,
            )
            &&& c.context.wrap == nearest(
                overrides.wrap,
                match context_section(repo) {
                    Some(x) => x.wrap,
                    None => None,
                },
                match context_section(user) {
                    Some(x) => x.wrap,
                    None => None,
                },
                true,
            )
            &&& c.forge == nearest(
                matcher::text_option(overrides.forge),
                match forge_section(repo) {
                    Some(x) => matcher::text_option(x.kind),
                    None => None,
                },
                match forge_section(user) {
                    Some(x) => matcher::text_option(x.kind),
                    None => None,
                },
                "github"@,
            )
        }),
{
}

/// The nearest custom pattern and the nearest editor win; without one there
/// is none.
pub proof fn law_the_nearest_commands_win(
    user: Option<ConfigSource>,
    repo: Option<ConfigSource>,
    overrides: CliOverrides,
)
    ensures
        ({
            let c = loaded(user, repo, overrides@);
            let pattern = (
                matcher::text_option(overrides.match_pattern),
                match match_section(repo) {
                    Some(x) => matcher::text_option(x.pattern),
                    None => None,
                },
                match match_section(user) {
                    Some(x) => matcher::text_option(x.pattern),
                    None => None,
                },
            );
            let editor = (
                matcher::text_option(overrides.editor),
                match editor_section(repo) {
                    Some(x) => matcher::text_option(x.command),
                    None => None,
                },
                match editor_section(user) {
                    Some(x) => matcher::text_option(x.command),
                    None => None,
                },
            );
            &&& c.matching.pattern == (if pattern.0 is Some {
                pattern.0
            } else if pattern.1 is Some {
                pattern.1
            } else {
                pattern.2
            })
            &&& c.editor == (if editor.0 is Some {
                editor.0
            } else if editor.1 is Some {
                editor.1
            } else {
                editor.2
            })
        }),
{
}

impl Config {
    /// The built-in default configuration.
    pub fn defaults() -> (r: Self)
        ensures
            r@ == default_config(),
    {
        Self::default()
    }

    /// Loads the configuration, merging defaults, user config, repo config,
    /// and command-line overrides. A file that does not exist is `None`.
    ///
    /// # Errors
    ///
    /// Returns an error when a config file exists but cannot be read or
    /// parsed, or when the merged configuration is invalid.
    pub fn load(
        user: Option<ConfigSource>,
        repo: Option<ConfigSource>,
        overrides: &CliOverrides,
    ) -> (r: Result<Self, ConfigError>)
        ensures
            ({
                let merged = loaded(user, repo, overrides@);
                match r {
                    Ok(config) => {
                        &&& !is_broken(user)
                        &&& !is_broken(repo)
                        &&& is_valid(merged)
                        &&& config@ == merged
                    },
                    Err(e) => {
                        ||| is_broken(user) && e.blames(user->0)
                        ||| !is_broken(user) && is_broken(repo) && e.blames(repo->0)
                        ||| !is_broken(user) && !is_broken(repo) && e.refuses(merged)
                    },
                }
            }),
            !is_broken(user) && !is_broken(repo) && is_simple(loaded(user, repo, overrides@))
                ==> r is Ok,
    {
        let mut config = Self::defaults();
        if let Some(source) = user {
            match config.merge_file(source) {
                Ok(()) => {},
                Err(e) => {
                    return Err(e);
                },
            }
        }
        if let Some(source) = repo {
            match config.merge_file(source) {
                Ok(()) => {},
                Err(e) => {
                    return Err(e);
                },
            }
        }
        config.apply_overrides(overrides);
        match config.validate() {
            Ok(()) => Ok(config),
            Err(e) => Err(e),
        }
    }

    /// Merges the partial configuration of a config file into `self`.
    ///
    /// # Errors
    ///
    /// Returns an error if the file could not be read or is not valid TOML.
    pub fn merge_file(&mut self, source: ConfigSource) -> (r: Result<(), ConfigError>)
        ensures
            final(self)@ == with_source(old(self)@, Some(source)),
            match r {
                Ok(()) => source.file is Ok,
                Err(e) => source.file is Err && e.blames(source),
            },
    {
        match source.file {
            Ok(file) => {
                self.merge_file_struct(file);
                Ok(())
            },
            Err(FileFault::Io(message)) => Err(
                ConfigError::Io { path: source.path, source: message },
            ),
            Err(FileFault::Parse(message)) => Err(
                ConfigError::Parse { path: source.path, source: message },
            ),
        }
    }

    /// Merges the partial configuration `file` into `self`.
    pub fn merge_file_struct(&mut self, file: ConfigFile)
        ensures
            final(self)@ == with_layer(old(self)@, file@),
    {
        let keys = file.keys();
        self.apply_overrides(&keys);
    }

    /// Applies command-line overrides on top of everything else.
    pub fn apply_overrides(&mut self, overrides: &CliOverrides)
        ensures
            final(self)@ == with_layer(old(self)@, overrides@),
    {
        put_list(&mut self.scan.match_config.categories, &overrides.categories);
        put(&mut self.scan.match_config.case_sensitive, overrides.case_sensitive);
        put(&mut self.scan.match_config.require_space_before, overrides.require_space_before);
        put(&mut self.scan.match_config.require_colon, overrides.require_colon);
        put_option(&mut self.scan.match_config.pattern, &overrides.match_pattern);
        put_list(&mut self.scan.paths, &overrides.paths);
        put_list(&mut self.scan.exclude, &overrides.exclude);
        put(&mut self.scan.max_file_bytes, overrides.max_file_bytes);
        put(&mut self.context.before, overrides.context_before);
        put(&mut self.context.after, overrides.context_after);
        put(&mut self.context.wrap, overrides.wrap);
        put_text(&mut self.forge.kind, &overrides.forge);
        put_option(&mut self.editor.command, &overrides.editor);
    }

    /// Checks the configuration for internal consistency.
    ///
    /// # Errors
    ///
    /// Returns an error when the match configuration cannot be compiled
    /// (e.g. an empty category list) or when the forge is unknown.
    pub fn validate(&self) -> (r: Result<(), ConfigError>)
        ensures
            match r {
                Ok(()) => is_valid(self@),
                Err(e) => !is_valid(self@) && e.refuses(self@),
            },
            is_simple(self@) ==> r is Ok,
    {
        match self.scan.match_config.compile() {
            Ok(_) => {},
            Err(e) => {
                return Err(ConfigError::MatchConfig(e));
            },
        }
        if !text::same_text(self.forge.kind.as_str(), "github") {
            return Err(ConfigError::UnknownForge(self.forge.kind.clone()));
        }
        Ok(())
    }

    /// Builds the [`ScanOptions`] that implement the scan-related parts of
    /// this configuration.
    pub fn scan_options(&self) -> (r: ScanOptions)
        ensures
            text::texts(r.paths@) == self@.paths,
            text::texts(r.exclude@) == self@.exclude,
            r.match_config@ == self@.matching,
            r.max_file_bytes == self@.max_file_bytes,
    {
        ScanOptions {
            paths: text::clone_strings(&self.scan.paths),
            exclude: text::clone_strings(&self.scan.exclude),
            match_config: self.scan.match_config.clone(),
            max_file_bytes: self.scan.max_file_bytes,
        }
    }

    /// A commented sample `todone.toml` to get users started.
    pub fn sample() -> (r: String)
        ensures
            r@ == SAMPLE_CONFIG@,
    {
        SAMPLE_CONFIG.to_owned()
    }
}

impl Default for ConfigFile {
    fn default() -> (r: Self)
        ensures
            r@ == empty_layer(),
    {
        ConfigFile { scan: None, context: None, forge: None, editor: None }
    }
}

impl Default for CliOverrides {
    fn default() -> (r: Self)
        ensures
            r@ == empty_layer(),
    {
        CliOverrides {
            categories: None,
            case_sensitive: None,
            require_space_before: None,
            require_colon: None,
            match_pattern: None,
            paths: None,
            exclude: None,
            max_file_bytes: None,
            context_before: None,
            context_after: None,
            wrap: None,
            forge: None,
            editor: None,
        }
    }
}

/// The sample configuration shipped with `todone config --sample`.
pub const SAMPLE_CONFIG: &'static str = r#"# todone configuration. Place this file at the
# repository root to share it with the team, or in
# ~/.config/todone/config.toml for personal settings.
# A file given by $TODONE_CONFIG overrides both.

[scan.match]
# Marker categories to look for, in priority order.
categories = ["TODO", "FIXME"]
# Match categories case-insensitively ("todo" matches "TODO").
case_sensitive = false

# A custom comment pattern (regex-crate syntax) with placeholders:
#   {comment}  the comment marker (a run of non-word characters: //, ///,
#              #, /*, " * " decorations, ...)
#   {marker}   any configured category (captured)
#   {content}  the rest of the line (captured)
# Everything else is matched verbatim. Without a pattern, a built-in rule
# requires the marker to be the first content token of a comment line, so
# doc comments that merely mention a marker ("/// Triage TODO comments")
# are not reported. Anchor custom patterns with ^ to keep that behavior.
# pattern = "^{comment}{marker}:{content}"

# Default scope when no paths are given on the command line.
# paths = ["src"]

# Glob patterns to exclude, relative to the repo root.
# exclude = ["vendor/**"]

# Skip files larger than this many bytes.
# max_file_bytes = 10485760

[context]
# Context lines around each finding, like grep -A/-B.
before = 3
after = 3
# Word-wrap long context lines in the interactive review (toggle with `w`).
wrap = true

[forge]
# Issue-tracking backend: "github" (v1, via the gh CLI).
kind = "github"

[editor]
# Editor used for issue drafts and read-only views.
# Falls back to $EDITOR when unset.
# command = "nvim"
"#;

/// The directory for user configuration: `$XDG_CONFIG_HOME`, else
/// `~/.config`.
pub open spec fn config_base(xdg: Option<Seq<char>>, home: Option<Seq<char>>) -> Option<Seq<char>> {
    match xdg {
        Some(x) => Some(x),
        None => match home {
            Some(h) => Some(path::joined(h, ".config"@)),
            None => None,
        },
    }
}

/// The user config path for the given environment.
pub open spec fn config_path(
    todone: Option<Seq<char>>,
    xdg: Option<Seq<char>>,
    home: Option<Seq<char>>,
) -> Option<Seq<char>> {
    match todone {
        Some(p) => Some(p),
        None => match config_base(xdg, home) {
            Some(base) => Some(path::joined(path::joined(base, "todone"@), "config.toml"@)),
            None => None,
        },
    }
}

/// The user's configuration file is the one that is named; else it is
/// `todone/config.toml` in the configuration directory, else in `.config` in
/// the home directory; without any of those there is none.
pub proof fn law_the_config_file_is_where_it_belongs(
    named: Option<Seq<char>>,
    xdg: Option<Seq<char>>,
    home: Option<Seq<char>>,
)
    ensures
        named is Some ==> config_path(named, xdg, home) == named,
        named is None && (xdg matches Some(x) && x.len() > 0 && x.last() != '/') ==> config_path(
            named,
            xdg,
            home,
        ) == Some(xdg->0 + "/todone/config.toml"@),
        named is None && xdg is None && (home matches Some(h) && h.len() > 0 && h.last() != '/')
            ==> config_path(named, xdg, home) == Some(home->0 + "/.config/todone/config.toml"@),
        named is None && xdg is None && home is None ==> config_path(named, xdg, home) is None,
{
    reveal_strlit("todone");
    reveal_strlit("config.toml");
    reveal_strlit(".config");
    reveal_strlit("/todone/config.toml");
    reveal_strlit("/.config/todone/config.toml");
    if named is None {
        match config_base(xdg, home) {
            Some(base) => {
                let mid = path::joined(base, "todone"@);
                let all = path::joined(mid, "config.toml"@);
                assert("todone"@[0] != '/' && "config.toml"@[0] != '/' && ".config"@[0] != '/');
                if xdg is Some {
                    if base.len() > 0 && base.last() != '/' {
                        assert(all == base + "/todone/config.toml"@);
                    }
                } else if home->0.len() > 0 && home->0.last() != '/' {
                    assert(all == home->0 + "/.config/todone/config.toml"@);
                }
            },
            None => {},
        }
    }
}

/// Resolves the user config path: `$TODONE_CONFIG`, then
/// `$XDG_CONFIG_HOME/todone/config.toml`, then `~/.config/todone/config.toml`.
/// The arguments are the values of the three environment variables
/// `TODONE_CONFIG`, `XDG_CONFIG_HOME` and `HOME`.
pub fn user_config_path(
    todone: Option<String>,
    xdg: Option<String>,
    home: Option<String>,
) -> (r: Option<String>)
    ensures
        matcher::text_option(r) == config_path(
            matcher::text_option(todone),
            matcher::text_option(xdg),
            matcher::text_option(home),
        ),
{
    if let Some(path) = todone {
        return Some(path);
    }
    let base = match xdg {
        Some(x) => x,
        None => match home {
            Some(h) => path::join(h.as_str(), ".config"),
            None => {
                return None;
            },
        },
    };
    let dir = path::join(base.as_str(), "todone");
    Some(path::join(dir.as_str(), "config.toml"))
}

} // verus!
