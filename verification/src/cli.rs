//! What the command-line flags mean.

use crate::config;
use crate::config::CliOverrides;
use crate::matcher;
use crate::text;
use vstd::prelude::*;

verus! {

/// Shared options for scanning behavior.
#[derive(Debug)]
pub struct CommonScanArgs {
    /// Context lines after each finding (grep -A).
    pub after: Option<usize>,
    /// Context lines before each finding (grep -B).
    pub before: Option<usize>,
    /// Comma-separated marker categories, e.g. `TODO,FIXME,PERF`.
    pub pattern: Option<String>,
    /// Custom comment pattern, e.g. `{comment}{marker}:{content}`.
    pub match_pattern: Option<String>,
    /// Match categories case-sensitively.
    pub case_sensitive: bool,
    /// Match categories case-insensitively (default).
    pub no_case_sensitive: bool,
    /// Require whitespace before the category (default).
    pub require_space: bool,
    /// Allow categories without a preceding space, e.g. `//TODO`.
    pub no_space: bool,
    /// Require a colon after the category (`// TODO: x`).
    pub require_colon: bool,
    /// Do not require a colon after the category (default).
    pub no_colon: bool,
    /// Wrap long lines in the review.
    pub wrap: bool,
    /// Do not wrap long lines in the review.
    pub no_wrap: bool,
    /// Glob patterns to exclude, relative to the repo root.
    pub exclude: Vec<String>,
    /// Skip files larger than this many bytes.
    pub max_file_bytes: Option<usize>,
    /// Files or directories to scan; empty means the whole repo.
    pub paths: Vec<String>,
}

/// Decision applied to every finding in `--auto` mode.
#[derive(Debug, Clone, Copy, PartialEq, Eq, Structural)]
pub enum AutoDecision {
    /// Leave every comment in place.
    Skip,
    /// Remove every comment without creating an issue.
    Delete,
    /// Create an issue with the comment text as the draft, then remove it.
    Port,
}

/// Options of `todone port`.
#[derive(Debug)]
pub struct PortArgs {
    /// Shared scan options.
    pub common: CommonScanArgs,
    /// Print the plan without creating issues or editing files.
    pub dry_run: bool,
    /// Decide for every finding without interaction.
    pub auto: Option<AutoDecision>,
    /// Skip the confirmation screen.
    pub yes: bool,
    /// The forge backend to use (overrides configuration).
    pub forge: Option<String>,
    /// Editor command for drafts and read-only views.
    pub editor: Option<String>,
}

/// A pair of opposite flags: the first one wins, neither leaves the setting
/// alone.
pub open spec fn flag_of(yes: bool, no: bool) -> Option<bool> {
    if yes {
        Some(true)
    } else if no {
        Some(false)
    } else {
        None
    }
}

/// A pair of opposite flags: the first one wins, neither leaves the setting
/// alone.
pub fn flag(yes: bool, no: bool) -> (r: Option<bool>)
    ensures
        r == flag_of(yes, no),
{
    if yes {
        Some(true)
    } else if no {
        Some(false)
    } else {
        None
    }
}

/// A list given on the command line; an empty one leaves the setting alone.
pub open spec fn given(list: Seq<Seq<char>>) -> Option<Seq<Seq<char>>> {
    if list.len() == 0 {
        None
    } else {
        Some(list)
    }
}

/// The categories of a `--pattern` flag: the trimmed parts between commas.
pub open spec fn pattern_categories(pattern: Option<Seq<char>>) -> Option<Seq<Seq<char>>> {
    match pattern {
        Some(p) => Some(text::pieces_from(p, ',', 0).map_values(|s: Seq<char>| text::trim_both(s))),
        None => None,
    }
}

/// The settings given by the shared scan flags.
pub open spec fn flag_layer(args: CommonScanArgs) -> config::Layer {
    config::Layer {
        categories: pattern_categories(matcher::text_option(args.pattern)),
        case_sensitive: flag_of(args.case_sensitive, args.no_case_sensitive),
        require_space_before: flag_of(args.require_space, args.no_space),
        require_colon: flag_of(args.require_colon, args.no_colon),
        pattern: matcher::text_option(args.match_pattern),
        paths: given(text::texts(args.paths@)),
        exclude: given(text::texts(args.exclude@)),
        max_file_bytes: args.max_file_bytes,
        before: args.before,
        after: args.after,
        wrap: flag_of(args.wrap, args.no_wrap),
        forge: None,
        editor: None,
    }
}

/// A list given on the command line; an empty one leaves the setting alone.
fn given_list(list: &Vec<String>) -> (r: Option<Vec<String>>)
    ensures
        config::texts_option(r) == given(text::texts(list@)),
{
    if list.len() == 0 {
        None
    } else {
        Some(text::clone_strings(list))
    }
}

/// Converts the shared scan flags into config overrides.
pub fn overrides(args: &CommonScanArgs) -> (r: CliOverrides)
    ensures
        r@ == flag_layer(*args),
{
    let categories = match &args.pattern {
        Some(p) => Some(text::split_trimmed(p.as_str(), ',')),
        None => None,
    };
    CliOverrides {
        categories,
        case_sensitive: flag(args.case_sensitive, args.no_case_sensitive),
        require_space_before: flag(args.require_space, args.no_space),
        require_colon: flag(args.require_colon, args.no_colon),
        match_pattern: config::clone_option(&args.match_pattern),
        paths: given_list(&args.paths),
        exclude: given_list(&args.exclude),
        max_file_bytes: args.max_file_bytes,
        context_before: args.before,
        context_after: args.after,
        wrap: flag(args.wrap, args.no_wrap),
        forge: None,
        editor: None,
    }
}

/// The overrides of a command whose scope resolved to `targets`: the shared
/// scan flags with the targets as scope, and the forge and editor flags.
pub fn command_overrides(
    args: &CommonScanArgs,
    targets: &Vec<String>,
    forge: Option<String>,
    editor: Option<String>,
) -> (r: CliOverrides)
    ensures
        r@ == (config::Layer {
            paths: given(text::texts(targets@)),
            forge: matcher::text_option(forge),
            editor: matcher::text_option(editor),
            ..flag_layer(*args)
        }),
{
    let mut r = overrides(args);
    r.paths = given_list(targets);
    r.forge = forge;
    r.editor = editor;
    r
}

/// A flag is on when it is asked for, off when only its opposite is, and not
/// set when neither is.
pub proof fn law_flags_set_what_they_say(args: CommonScanArgs)
    ensures
        ({
            let l = flag_layer(args);
            &&& l.case_sensitive == Some(true) <==> args.case_sensitive
            &&& l.case_sensitive is None <==> !args.case_sensitive && !args.no_case_sensitive
            &&& l.require_space_before == Some(true) <==> args.require_space
            &&& l.require_space_before is None <==> !args.require_space && !args.no_space
            &&& l.require_colon == Some(true) <==> args.require_colon
            &&& l.require_colon is None <==> !args.require_colon && !args.no_colon
            &&& l.wrap == Some(true) <==> args.wrap
            &&& l.wrap is None <==> !args.wrap && !args.no_wrap
        }),
{
}

/// The other options hand on what they were given: an empty list sets
/// nothing, and no option sets the forge or the editor.
pub proof fn law_options_hand_on_what_they_were_given(args: CommonScanArgs)
    ensures
        ({
            let l = flag_layer(args);
            &&& l.before == args.before
            &&& l.after == args.after
            &&& l.max_file_bytes == args.max_file_bytes
            &&& l.pattern is Some <==> args.match_pattern is Some
            &&& args.match_pattern matches Some(p) ==> l.pattern == Some(p@)
            &&& l.paths is None <==> args.paths@.len() == 0
            &&& l.exclude is None <==> args.exclude@.len() == 0
            &&& l.paths matches Some(ps) ==> {
                &&& ps.len() == args.paths@.len()
                &&& forall|k: int| 0 <= k < ps.len() ==> #[trigger] ps[k] == args.paths@[k]@
            }
            &&& l.exclude matches Some(ps) ==> {
                &&& ps.len() == args.exclude@.len()
                &&& forall|k: int| 0 <= k < ps.len() ==> #[trigger] ps[k] == args.exclude@[k]@
            }
            &&& l.forge is None && l.editor is None
        }),
{
}

/// The categories of a list are what stands between its commas, each without
/// the whitespace around it.
pub proof fn law_categories_stand_between_commas(p: Seq<char>) -> (pieces: Seq<Seq<char>>)
    ensures
        pieces.len() > 0,
        text::joined_texts(pieces, seq![',']) == p,
        forall|k: int| 0 <= k < pieces.len() ==> !(#[trigger] pieces[k]).contains(','),
        pattern_categories(Some(p)) matches Some(cs) && cs.len() == pieces.len() && forall|k: int|
            0 <= k < cs.len() ==> #[trigger] cs[k] == text::trim_both(pieces[k]),
        pattern_categories(None) is None,
{
    let pieces = text::pieces_from(p, ',', 0);
    text::law_pieces_join_back(p, ',', 0);
    assert(p.skip(0) == p);
    pieces
}

/// Whether output is colored.
pub open spec fn is_colored(force: bool, no_color: bool, stdout_is_tty: bool) -> bool {
    force || !no_color && stdout_is_tty
}

/// Asking for colors gives colors, asking for none gives none, and without
/// either the terminal decides.
pub proof fn law_color_flags_win(no_color: bool, stdout_is_tty: bool)
    ensures
        is_colored(true, no_color, stdout_is_tty),
        !is_colored(false, true, stdout_is_tty),
        is_colored(false, false, stdout_is_tty) == stdout_is_tty,
{
}

/// Decides whether output is colored: explicit flags win, otherwise only
/// when `stdout_is_tty`.
pub fn resolve_color(force: bool, no_color: bool, stdout_is_tty: bool) -> (r: bool)
    ensures
        r == is_colored(force, no_color, stdout_is_tty),
{
    if force {
        true
    } else if no_color {
        false
    } else {
        stdout_is_tty
    }
}

} // verus!
