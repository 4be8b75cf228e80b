//! Language detection and the grammar registry.
//!
//! Each language knows the file extensions that map to it and the syntax-tree
//! node kinds that represent comments. The registry is a curated, fixed set;
//! unknown languages are reported as skipped rather than guessed at.

use crate::path;
use crate::text;
use vstd::prelude::*;
use vstd::string::*;

verus! {

/// A tree-sitter grammar the scanner knows about.
#[derive(Debug, Clone, Copy, PartialEq, Eq, Structural)]
pub enum Grammar {
    Rust,
    Python,
    C,
    Cpp,
    Go,
    TypeScript,
    Tsx,
    Bash,
    Json,
}

/// Every grammar the scanner knows about, in registry order.
pub const ALL: [Grammar; 9] = [
    Grammar::Rust,
    Grammar::Python,
    Grammar::C,
    Grammar::Cpp,
    Grammar::Go,
    Grammar::TypeScript,
    Grammar::Tsx,
    Grammar::Bash,
    Grammar::Json,
];

/// The stable identifier of a grammar's language.
pub open spec fn id_of(g: Grammar) -> Seq<char> {
    match g {
        Grammar::Rust => "rust"@,
        Grammar::Python => "python"@,
        Grammar::C => "c"@,
        Grammar::Cpp => "cpp"@,
        Grammar::Go => "go"@,
        Grammar::TypeScript => "typescript"@,
        Grammar::Tsx => "tsx"@,
        Grammar::Bash => "bash"@,
        Grammar::Json => "json"@,
    }
}

/// The display name of a grammar's language.
pub open spec fn name_of(g: Grammar) -> Seq<char> {
    match g {
        Grammar::Rust => "Rust"@,
        Grammar::Python => "Python"@,
        Grammar::C => "C"@,
        Grammar::Cpp => "C++"@,
        Grammar::Go => "Go"@,
        Grammar::TypeScript => "TypeScript"@,
        Grammar::Tsx => "TSX"@,
        Grammar::Bash => "Bash"@,
        Grammar::Json => "JSON"@,
    }
}

/// The file extensions that map to a grammar.
pub open spec fn extensions_of(g: Grammar) -> Seq<Seq<char>> {
    match g {
        Grammar::Rust => seq!["rs"@],
        Grammar::Python => seq!["py"@, "pyi"@],
        Grammar::C => seq!["c"@, "h"@],
        Grammar::Cpp => seq!["cc"@, "cpp"@, "cxx"@, "hpp"@, "hh"@, "hxx"@],
        Grammar::Go => seq!["go"@],
        Grammar::TypeScript => seq!["ts"@, "mts"@, "cts"@],
        Grammar::Tsx => seq!["tsx"@],
        Grammar::Bash => seq!["sh"@, "bash"@, "zsh"@, "ksh"@],
        Grammar::Json => seq!["json"@],
    }
}

/// The node kinds that represent comments in a grammar's trees.
pub open spec fn comment_kinds_of(g: Grammar) -> Seq<Seq<char>> {
    match g {
        Grammar::Rust => seq!["line_comment"@, "block_comment"@],
        _ => seq!["comment"@],
    }
}

/// The first grammar of `gs`, from index `k` on, that `ext` maps to.
pub open spec fn first_for(gs: Seq<Grammar>, ext: Seq<char>, k: int) -> Option<Grammar>
    decreases gs.len() - k,
{
    if k < 0 || k >= gs.len() {
        None
    } else if extensions_of(gs[k]).contains(ext) {
        Some(gs[k])
    } else {
        first_for(gs, ext, k + 1)
    }
}

/// The grammar registered for a file's extension.
pub open spec fn grammar_for(path: Seq<char>) -> Option<Grammar> {
    match path::extension_of(path) {
        Some(ext) => first_for(ALL@, ext, 0),
        None => None,
    }
}

/// The texts of a list of static strings.
pub open spec fn words(v: Seq<&'static str>) -> Seq<Seq<char>> {
    v.map_values(|s: &'static str| s@)
}

/// A registered language backed by a tree-sitter grammar.
#[derive(Debug)]
pub struct Language {
    /// Stable identifier used in configuration and reports (e.g. `rust`).
    pub id: &'static str,
    /// Human-readable display name (e.g. `Rust`).
    pub name: &'static str,
    /// File extensions (without the leading dot) that map to this language.
    ///
    /// The registry is consulted in order, so `c` before `cpp` makes `.h`
    /// resolve to C.
    pub extensions: Vec<&'static str>,
    /// The grammar.
    pub grammar: Grammar,
    /// Node kinds that represent comments in this grammar's tree.
    pub comment_kinds: Vec<&'static str>,
}

impl Language {
    /// Whether this is the registry's entry for its grammar.
    pub open spec fn registered(self) -> bool {
        &&& self.id@ == id_of(self.grammar)
        &&& self.name@ == name_of(self.grammar)
        &&& words(self.extensions@) == extensions_of(self.grammar)
        &&& words(self.comment_kinds@) == comment_kinds_of(self.grammar)
    }

    /// The grammar that parses this language.
    pub fn ts(&self) -> (r: Grammar)
        ensures
            r == self.grammar,
    {
        self.grammar
    }
}

impl Grammar {
    /// The registry's entry for this grammar.
    pub fn language(self) -> (r: Language)
        ensures
            r.grammar == self,
            r.registered(),
    {
        let kinds: Vec<&'static str> = match self {
            Grammar::Rust => vec!["line_comment", "block_comment"],
            _ => vec!["comment"],
        };
        assert(words(kinds@) == comment_kinds_of(self));
        let (id, name, extensions): (&'static str, &'static str, Vec<&'static str>) = match self {
            Grammar::Rust => ("rust", "Rust", vec!["rs"]),
            Grammar::Python => ("python", "Python", vec!["py", "pyi"]),
            Grammar::C => ("c", "C", vec!["c", "h"]),
            Grammar::Cpp => ("cpp", "C++", vec!["cc", "cpp", "cxx", "hpp", "hh", "hxx"]),
            Grammar::Go => ("go", "Go", vec!["go"]),
            Grammar::TypeScript => ("typescript", "TypeScript", vec!["ts", "mts", "cts"]),
            Grammar::Tsx => ("tsx", "TSX", vec!["tsx"]),
            Grammar::Bash => ("bash", "Bash", vec!["sh", "bash", "zsh", "ksh"]),
            Grammar::Json => ("json", "JSON", vec!["json"]),
        };
        assert(words(extensions@) == extensions_of(self));
        Language { id, name, extensions, grammar: self, comment_kinds: kinds }
    }
}

/// Whether `s` is one of `v`.
pub fn is_word(v: &Vec<&'static str>, s: &str) -> (r: bool)
    ensures
        r == words(v@).contains(s@),
{
    let mut i: usize = 0;
    while i < v.len()
        invariant
            i <= v.len(),
            forall|k: int| 0 <= k < i ==> v@[k]@ != s@,
        decreases v.len() - i,
    {
        if text::same_text(v[i], s) {
            assert(words(v@)[i as int] == s@);
            return true;
        }
        i += 1;
    }
    false
}

/// Which extension belongs to which language; any other belongs to none.
pub proof fn law_extensions_tell_the_language(e: Seq<char>)
    ensures
        first_for(ALL@, e, 0) == Some(Grammar::Rust) <==> e == "rs"@,
        first_for(ALL@, e, 0) == Some(Grammar::Python) <==> e == "py"@ || e == "pyi"@,
        first_for(ALL@, e, 0) == Some(Grammar::C) <==> e == "c"@ || e == "h"@,
        first_for(ALL@, e, 0) == Some(Grammar::Cpp) <==> e == "cc"@ || e == "cpp"@ || e == "cxx"@
            || e == "hpp"@ || e == "hh"@ || e == "hxx"@,
        first_for(ALL@, e, 0) == Some(Grammar::Go) <==> e == "go"@,
        first_for(ALL@, e, 0) == Some(Grammar::TypeScript) <==> e == "ts"@ || e == "mts"@
            || e == "cts"@,
        first_for(ALL@, e, 0) == Some(Grammar::Tsx) <==> e == "tsx"@,
        first_for(ALL@, e, 0) == Some(Grammar::Bash) <==> e == "sh"@ || e == "bash"@ || e == "zsh"@
            || e == "ksh"@,
        first_for(ALL@, e, 0) == Some(Grammar::Json) <==> e == "json"@,
{
    reveal_strlit("rs");
    reveal_strlit("py");
    reveal_strlit("pyi");
    reveal_strlit("c");
    reveal_strlit("h");
    reveal_strlit("cc");
    reveal_strlit("cpp");
    reveal_strlit("cxx");
    reveal_strlit("hpp");
    reveal_strlit("hh");
    reveal_strlit("hxx");
    reveal_strlit("go");
    reveal_strlit("ts");
    reveal_strlit("mts");
    reveal_strlit("cts");
    reveal_strlit("tsx");
    reveal_strlit("sh");
    reveal_strlit("bash");
    reveal_strlit("zsh");
    reveal_strlit("ksh");
    reveal_strlit("json");
    assert(extensions_of(Grammar::Rust)[0] == "rs"@);
    assert(extensions_of(Grammar::Python)[0] == "py"@);
    assert(extensions_of(Grammar::Python)[1] == "pyi"@);
    assert(extensions_of(Grammar::C)[0] == "c"@);
    assert(extensions_of(Grammar::C)[1] == "h"@);
    assert(extensions_of(Grammar::Cpp)[0] == "cc"@);
    assert(extensions_of(Grammar::Cpp)[1] == "cpp"@);
    assert(extensions_of(Grammar::Cpp)[2] == "cxx"@);
    assert(extensions_of(Grammar::Cpp)[3] == "hpp"@);
    assert(extensions_of(Grammar::Cpp)[4] == "hh"@);
    assert(extensions_of(Grammar::Cpp)[5] == "hxx"@);
    assert(extensions_of(Grammar::Go)[0] == "go"@);
    assert(extensions_of(Grammar::TypeScript)[0] == "ts"@);
    assert(extensions_of(Grammar::TypeScript)[1] == "mts"@);
    assert(extensions_of(Grammar::TypeScript)[2] == "cts"@);
    assert(extensions_of(Grammar::Tsx)[0] == "tsx"@);
    assert(extensions_of(Grammar::Bash)[0] == "sh"@);
    assert(extensions_of(Grammar::Bash)[1] == "bash"@);
    assert(extensions_of(Grammar::Bash)[2] == "zsh"@);
    assert(extensions_of(Grammar::Bash)[3] == "ksh"@);
    assert(extensions_of(Grammar::Json)[0] == "json"@);
    reveal_with_fuel(first_for, 10);
    assert("rs"@.len() == 2 && "rs"@[0] == 'r' && "rs"@[1] == 's');
    assert("py"@.len() == 2 && "py"@[0] == 'p' && "py"@[1] == 'y');
    assert("pyi"@.len() == 3 && "pyi"@[0] == 'p' && "pyi"@[1] == 'y' && "pyi"@[2] == 'i');
    assert("c"@.len() == 1 && "c"@[0] == 'c');
    assert("h"@.len() == 1 && "h"@[0] == 'h');
    assert("cc"@.len() == 2 && "cc"@[0] == 'c' && "cc"@[1] == 'c');
    assert("cpp"@.len() == 3 && "cpp"@[0] == 'c' && "cpp"@[1] == 'p' && "cpp"@[2] == 'p');
    assert("cxx"@.len() == 3 && "cxx"@[0] == 'c' && "cxx"@[1] == 'x' && "cxx"@[2] == 'x');
    assert("hpp"@.len() == 3 && "hpp"@[0] == 'h' && "hpp"@[1] == 'p' && "hpp"@[2] == 'p');
    assert("hh"@.len() == 2 && "hh"@[0] == 'h' && "hh"@[1] == 'h');
    assert("hxx"@.len() == 3 && "hxx"@[0] == 'h' && "hxx"@[1] == 'x' && "hxx"@[2] == 'x');
    assert("go"@.len() == 2 && "go"@[0] == 'g' && "go"@[1] == 'o');
    assert("ts"@.len() == 2 && "ts"@[0] == 't' && "ts"@[1] == 's');
    assert("mts"@.len() == 3 && "mts"@[0] == 'm' && "mts"@[1] == 't' && "mts"@[2] == 's');
    assert("cts"@.len() == 3 && "cts"@[0] == 'c' && "cts"@[1] == 't' && "cts"@[2] == 's');
    assert("tsx"@.len() == 3 && "tsx"@[0] == 't' && "tsx"@[1] == 's' && "tsx"@[2] == 'x');
    assert("sh"@.len() == 2 && "sh"@[0] == 's' && "sh"@[1] == 'h');
    assert("bash"@.len() == 4 && "bash"@[0] == 'b' && "bash"@[1] == 'a' && "bash"@[2] == 's' && "bash"@[3] == 'h');
    assert("zsh"@.len() == 3 && "zsh"@[0] == 'z' && "zsh"@[1] == 's' && "zsh"@[2] == 'h');
    assert("ksh"@.len() == 3 && "ksh"@[0] == 'k' && "ksh"@[1] == 's' && "ksh"@[2] == 'h');
    assert("json"@.len() == 4 && "json"@[0] == 'j' && "json"@[1] == 's' && "json"@[2] == 'o' && "json"@[3] == 'n');
}

/// A path has the language of its extension, and none without an extension.
pub proof fn law_paths_have_the_language_of_their_extension(p: Seq<char>)
    ensures
        path::extension_of(p) matches Some(e) ==> grammar_for(p) == first_for(ALL@, e, 0),
        path::extension_of(p) is None ==> grammar_for(p) is None,
{
}

/// Rust has line and block comments; the other languages have one kind.
pub proof fn law_comment_kinds(g: Grammar)
    ensures
        g is Rust ==> comment_kinds_of(g) == seq!["line_comment"@, "block_comment"@],
        !(g is Rust) ==> comment_kinds_of(g) == seq!["comment"@],
{
}

/// The identifiers and names of the languages.
pub proof fn law_languages_are_named(g: Grammar)
    ensures
        g is Rust ==> id_of(g) == "rust"@ && name_of(g) == "Rust"@,
        g is Python ==> id_of(g) == "python"@ && name_of(g) == "Python"@,
        g is C ==> id_of(g) == "c"@ && name_of(g) == "C"@,
        g is Cpp ==> id_of(g) == "cpp"@ && name_of(g) == "C++"@,
        g is Go ==> id_of(g) == "go"@ && name_of(g) == "Go"@,
        g is TypeScript ==> id_of(g) == "typescript"@ && name_of(g) == "TypeScript"@,
        g is Tsx ==> id_of(g) == "tsx"@ && name_of(g) == "TSX"@,
        g is Bash ==> id_of(g) == "bash"@ && name_of(g) == "Bash"@,
        g is Json ==> id_of(g) == "json"@ && name_of(g) == "JSON"@,
{
}

/// Looks up the language registered for a file's extension.
pub fn by_extension(path: &str) -> (r: Option<Language>)
    ensures
        match r {
            Some(lang) => grammar_for(path@) == Some(lang.grammar) && lang.registered(),
            None => grammar_for(path@) is None,
        },
{
    let ext = match path::extension(path) {
        Some(ext) => ext,
        None => {
            return None;
        },
    };
    let mut i: usize = 0;
    while i < ALL.len()
        invariant
            i <= ALL@.len(),
            path::extension_of(path@) == Some(ext@),
            first_for(ALL@, ext@, 0) == first_for(ALL@, ext@, i as int),
        decreases ALL@.len() - i,
    {
        let lang = ALL[i].language();
        if is_word(&lang.extensions, ext.as_str()) {
            return Some(lang);
        }
        i += 1;
    }
    None
}

/// Errors produced while loading a grammar.
#[derive(Debug, PartialEq, Eq)]
pub enum GrammarError {
    /// No grammar can be loaded for the language.
    Load {
        /// The language id.
        language: String,
        /// What went wrong.
        detail: String,
    },
}

/// The grammar with the language id `id`, among `gs` from index `k` on.
pub open spec fn first_with_id(gs: Seq<Grammar>, id: Seq<char>, k: int) -> Option<Grammar>
    decreases gs.len() - k,
{
    if k < 0 || k >= gs.len() {
        None
    } else if id_of(gs[k]) == id {
        Some(gs[k])
    } else {
        first_with_id(gs, id, k + 1)
    }
}

/// The registered grammar with the language id `id`.
pub open spec fn grammar_with_id(id: Seq<char>) -> Option<Grammar> {
    first_with_id(ALL@, id, 0)
}

/// Resolves the grammar for a language id.
///
/// # Errors
///
/// Returns [`GrammarError::Load`] when no grammar is registered for `id`.
pub fn grammar(id: &str) -> (r: Result<Grammar, GrammarError>)
    ensures
        match r {
            Ok(g) => grammar_with_id(id@) == Some(g),
            Err(GrammarError::Load { language, detail }) => {
                &&& grammar_with_id(id@) is None
                &&& language@ == id@
                &&& detail@ == "no grammar is registered for "@ + id@
            },
        },
{
    let mut i: usize = 0;
    while i < ALL.len()
        invariant
            i <= ALL@.len(),
            first_with_id(ALL@, id@, 0) == first_with_id(ALL@, id@, i as int),
        decreases ALL@.len() - i,
    {
        if text::same_text(ALL[i].language().id, id) {
            return Ok(ALL[i]);
        }
        i += 1;
    }
    let mut detail = "no grammar is registered for ".to_owned();
    detail.append(id);
    Err(GrammarError::Load { language: id.to_owned(), detail })
}

/// Every registered language resolves to its own grammar by its id.
pub proof fn law_ids_are_unique(g: Grammar)
    ensures
        grammar_with_id(id_of(g)) == Some(g),
{
    reveal_strlit("rust");
    reveal_strlit("python");
    reveal_strlit("c");
    reveal_strlit("cpp");
    reveal_strlit("go");
    reveal_strlit("typescript");
    reveal_strlit("tsx");
    reveal_strlit("bash");
    reveal_strlit("json");
    reveal_with_fuel(first_with_id, 10);
    assert(id_of(Grammar::Rust)[0] == 'r');
    assert(id_of(Grammar::Go)[0] == 'g');
    assert(id_of(Grammar::TypeScript)[0] == 't');
    assert(id_of(Grammar::Tsx)[0] == 't');
    assert(id_of(Grammar::Bash)[0] == 'b');
    assert(id_of(Grammar::Json)[0] == 'j');
    assert(id_of(Grammar::Python)[0] == 'p');
    assert(id_of(Grammar::C).len() == 1);
    assert(id_of(Grammar::C)[0] == 'c');
    assert(id_of(Grammar::Cpp).len() == 3);
    assert(id_of(Grammar::Cpp)[0] == 'c');
    assert(id_of(Grammar::TypeScript).len() == 10);
    assert(id_of(Grammar::Tsx).len() == 3);
}

} // verus!
