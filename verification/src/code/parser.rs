//! Scanning a source file for its imports.
//!
//! Which statements count as imports is decided by regular expressions, as
//! the `regex` crate matches them. What a match captures is named below
//! (`first_group`), and the scanner is verified over that name: the line
//! classification, the Go import-block state machine, the splitting of a
//! Python import list and the assembly of the file record.

use vstd::prelude::*;
use crate::text::{chars_of, lowercase, push_char, starts_with_chars, string_views, to_lowercase, trim, trim_ws};
use crate::code::paths::{forward_slashes, to_forward_slashes};

verus! {

#[verifier::external_type_specification]
#[verifier::external_body]
pub struct ExRegex(regex::Regex);

#[verifier::external_type_specification]
#[verifier::external_body]
pub struct ExRegexError(regex::Error);

/// Whether `regex::Regex::new` accepts a pattern (with the crate's default
/// configuration, which is fixed).
pub uninterp spec fn compiles(pattern: Seq<char>) -> bool;

/// What the regular expression `pattern` captures in its first group at its
/// leftmost-first match in `text`; `None` when it does not match there or
/// the group takes no part in the match.
pub uninterp spec fn first_group(pattern: Seq<char>, text: Seq<char>) -> Option<Seq<char>>;

/// A compiled regular expression together with its source pattern.
pub struct Pattern {
    source: String,
    compiled: regex::Regex,
}

impl View for Pattern {
    type V = Seq<char>;

    /// The source of the pattern.
    closed spec fn view(&self) -> Seq<char> {
        self.source@
    }
}

/// Compiles `pattern` with `regex::Regex::new`. The contract claims that the
/// call succeeds exactly when `compiles` holds of the pattern, and that the
/// compiled expression is kept with its source.
#[verifier::external_body]
fn compile(pattern: &str) -> (res: Result<Pattern, regex::Error>)
    ensures
        res is Ok <==> compiles(pattern@),
        res matches Ok(p) ==> p@ == pattern@,
{
    match regex::Regex::new(pattern) {
        Ok(re) => Ok(Pattern { source: pattern.to_string(), compiled: re }),
        Err(e) => Err(e),
    }
}

/// The characters of an optional string.
pub open spec fn opt_chars(o: Option<String>) -> Option<Seq<char>> {
    match o {
        Some(s) => Some(s@),
        None => None,
    }
}

/// Runs `regex::Regex::captures` on `text` and takes the text of group 1.
/// The contract claims that the result is what `first_group` names for the
/// pattern's source and the text.
#[verifier::external_body]
fn capture(p: &Pattern, text: &str) -> (res: Option<String>)
    ensures
        opt_chars(res) == first_group(p@, text@),
{
    p.compiled.captures(text).and_then(|caps| caps.get(1)).map(|m| m.as_str().to_string())
}

/// The languages whose imports the scanner knows.
#[derive(Clone, Copy, PartialEq, Eq, Debug, Structural)]
pub enum Language {
    Go,
    Rust,
    JavaScript,
    TypeScript,
    Python,
    Cpp,
    Header,
    Java,
    CSharp,
}

/// The language of a lowercase file extension.
pub open spec fn language_of_extension(ext: Seq<char>) -> Option<Language> {
    if ext == "go"@ {
        Some(Language::Go)
    } else if ext == "rs"@ {
        Some(Language::Rust)
    } else if ext == "js"@ || ext == "jsx"@ || ext == "mjs"@ || ext == "cjs"@ {
        Some(Language::JavaScript)
    } else if ext == "ts"@ || ext == "tsx"@ || ext == "mts"@ || ext == "cts"@ {
        Some(Language::TypeScript)
    } else if ext == "py"@ {
        Some(Language::Python)
    } else if ext == "cpp"@ || ext == "cc"@ || ext == "cxx"@ || ext == "c"@ {
        Some(Language::Cpp)
    } else if ext == "h"@ || ext == "hpp"@ {
        Some(Language::Header)
    } else if ext == "java"@ {
        Some(Language::Java)
    } else if ext == "cs"@ {
        Some(Language::CSharp)
    } else {
        None
    }
}

/// The name a file record gives its language.
pub open spec fn language_name(lang: Language) -> Seq<char> {
    match lang {
        Language::Go => "go"@,
        Language::Rust => "rust"@,
        Language::JavaScript => "javascript"@,
        Language::TypeScript => "typescript"@,
        Language::Python => "python"@,
        Language::Cpp => "cpp"@,
        Language::Header => "header"@,
        Language::Java => "java"@,
        Language::CSharp => "csharp"@,
    }
}

/// Whether `cs` holds exactly the characters of `lit`.
pub fn same_chars(cs: &Vec<char>, lit: &str) -> (b: bool)
    ensures
        b == (cs@ == lit@),
{
    let n = lit.unicode_len();
    if cs.len() != n {
        return false;
    }
    let mut i: usize = 0;
    let lc = chars_of(lit);
    while i < n
        invariant
            i <= n,
            n == cs@.len(),
            lc@ == lit@,
            n == lc@.len(),
            forall|j: int| 0 <= j < i ==> cs@[j] == lc@[j],
        decreases n - i,
    {
        if cs[i] != lc[i] {
            return false;
        }
        i = i + 1;
    }
    assert(cs@ =~= lit@);
    true
}

/// The language of a file extension, compared case-insensitively.
pub fn language_for_extension(ext: &str) -> (res: Option<Language>)
    ensures
        res == language_of_extension(lowercase(ext@)),
{
    let lower = to_lowercase(ext);
    let e = chars_of(lower.as_str());
    if same_chars(&e, "go") {
        Some(Language::Go)
    } else if same_chars(&e, "rs") {
        Some(Language::Rust)
    } else if same_chars(&e, "js") || same_chars(&e, "jsx") || same_chars(&e, "mjs") || same_chars(&e, "cjs") {
        Some(Language::JavaScript)
    } else if same_chars(&e, "ts") || same_chars(&e, "tsx") || same_chars(&e, "mts") || same_chars(&e, "cts") {
        Some(Language::TypeScript)
    } else if same_chars(&e, "py") {
        Some(Language::Python)
    } else if same_chars(&e, "cpp") || same_chars(&e, "cc") || same_chars(&e, "cxx") || same_chars(&e, "c") {
        Some(Language::Cpp)
    } else if same_chars(&e, "h") || same_chars(&e, "hpp") {
        Some(Language::Header)
    } else if same_chars(&e, "java") {
        Some(Language::Java)
    } else if same_chars(&e, "cs") {
        Some(Language::CSharp)
    } else {
        None
    }
}

impl Language {
    /// The name a file record gives this language.
    pub fn name(&self) -> (s: String)
        ensures
            s@ == language_name(*self),
    {
        match self {
            Language::Go => String::from_str("go"),
            Language::Rust => String::from_str("rust"),
            Language::JavaScript => String::from_str("javascript"),
            Language::TypeScript => String::from_str("typescript"),
            Language::Python => String::from_str("python"),
            Language::Cpp => String::from_str("cpp"),
            Language::Header => String::from_str("header"),
            Language::Java => String::from_str("java"),
            Language::CSharp => String::from_str("csharp"),
        }
    }
}

/// The source patterns, one per kind of import statement.
pub open spec fn js_import_from_source() -> Seq<char> {
    r#"import\s+.*\s+from\s+['"]([^'"]+)['"]"#@
}

pub open spec fn js_import_simple_source() -> Seq<char> {
    r#"import\s+['"]([^'"]+)['"]"#@
}

pub open spec fn js_require_source() -> Seq<char> {
    r#"require\s*\(\s*['"]([^'"]+)['"]\s*\)"#@
}

pub open spec fn js_dynamic_import_source() -> Seq<char> {
    r#"import\s*\(\s*['"]([^'"]+)['"]\s*\)"#@
}

pub open spec fn py_from_import_source() -> Seq<char> {
    r#"from\s+(\.?\.?[a-zA-Z0-9_.]+)\s+import"#@
}

pub open spec fn py_import_source() -> Seq<char> {
    r#"import\s+([a-zA-Z0-9_., ]+)"#@
}

pub open spec fn go_import_source() -> Seq<char> {
    r#"['"]([^'"]+)['"]"#@
}

pub open spec fn rust_mod_source() -> Seq<char> {
    r#"mod\s+([a-zA-Z0-9_]+);"#@
}

pub open spec fn rust_use_source() -> Seq<char> {
    r#"use\s+([a-zA-Z0-9_]+)(?:::|;)"#@
}

pub open spec fn cpp_include_source() -> Seq<char> {
    r#"#include\s+["']([^"']+)["']"#@
}

pub open spec fn java_import_source() -> Seq<char> {
    r#"import\s+([a-zA-Z0-9_.]+);"#@
}

pub open spec fn cs_using_source() -> Seq<char> {
    r#"using\s+([a-zA-Z0-9_.]+);"#@
}

/// Whether every pattern of the scanner compiles.
pub open spec fn all_patterns_compile() -> bool {
    &&& compiles(js_import_from_source())
    &&& compiles(js_import_simple_source())
    &&& compiles(js_require_source())
    &&& compiles(js_dynamic_import_source())
    &&& compiles(py_from_import_source())
    &&& compiles(py_import_source())
    &&& compiles(go_import_source())
    &&& compiles(rust_mod_source())
    &&& compiles(rust_use_source())
    &&& compiles(cpp_include_source())
    &&& compiles(java_import_source())
    &&& compiles(cs_using_source())
}

/// A pattern that did not compile.
#[derive(Debug, Clone)]
pub struct InvalidPattern {
    /// The source of the pattern.
    pub pattern: String,
}

/// The import scanner: one compiled pattern per kind of import statement.
pub struct Parser {
    re_js_import_from: Pattern,
    re_js_import_simple: Pattern,
    re_js_require: Pattern,
    re_js_dynamic_import: Pattern,
    re_py_from_import: Pattern,
    re_py_import: Pattern,
    re_go_import: Pattern,
    re_rust_mod: Pattern,
    re_rust_use: Pattern,
    re_cpp_include: Pattern,
    re_java_import: Pattern,
    re_cs_using: Pattern,
}

/// Compile one pattern, keeping its source on failure.
fn compile_or_report(source: &str) -> (res: Result<Pattern, InvalidPattern>)
    ensures
        res is Ok <==> compiles(source@),
        res matches Ok(p) ==> p@ == source@,
        res matches Err(e) ==> e.pattern@ == source@,
{
    match compile(source) {
        Ok(p) => Ok(p),
        Err(_) => Err(InvalidPattern { pattern: String::from_str(source) }),
    }
}

impl Parser {
    /// Each pattern is the one its kind of statement is matched with.
    #[verifier::type_invariant]
    pub closed spec fn wf(&self) -> bool {
        &&& self.re_js_import_from@ == js_import_from_source()
        &&& self.re_js_import_simple@ == js_import_simple_source()
        &&& self.re_js_require@ == js_require_source()
        &&& self.re_js_dynamic_import@ == js_dynamic_import_source()
        &&& self.re_py_from_import@ == py_from_import_source()
        &&& self.re_py_import@ == py_import_source()
        &&& self.re_go_import@ == go_import_source()
        &&& self.re_rust_mod@ == rust_mod_source()
        &&& self.re_rust_use@ == rust_use_source()
        &&& self.re_cpp_include@ == cpp_include_source()
        &&& self.re_java_import@ == java_import_source()
        &&& self.re_cs_using@ == cs_using_source()
    }

    /// Compile the scanner's patterns. Succeeds exactly when every pattern
    /// compiles; otherwise names a pattern that did not.
    pub fn new() -> (res: Result<Parser, InvalidPattern>)
        ensures
            res is Ok <==> all_patterns_compile(),
            res matches Ok(p) ==> p.wf(),
            res matches Err(e) ==> !compiles(e.pattern@),
    {
        let re_js_import_from = match compile_or_report(r#"import\s+.*\s+from\s+['"]([^'"]+)['"]"#) {
            Ok(p) => p,
            Err(e) => return Err(e),
        };
        let re_js_import_simple = match compile_or_report(r#"import\s+['"]([^'"]+)['"]"#) {
            Ok(p) => p,
            Err(e) => return Err(e),
        };
        let re_js_require = match compile_or_report(r#"require\s*\(\s*['"]([^'"]+)['"]\s*\)"#) {
            Ok(p) => p,
            Err(e) => return Err(e),
        };
        let re_js_dynamic_import = match compile_or_report(r#"import\s*\(\s*['"]([^'"]+)['"]\s*\)"#) {
            Ok(p) => p,
            Err(e) => return Err(e),
        };
        let re_py_from_import = match compile_or_report(r#"from\s+(\.?\.?[a-zA-Z0-9_.]+)\s+import"#) {
            Ok(p) => p,
            Err(e) => return Err(e),
        };
        let re_py_import = match compile_or_report(r#"import\s+([a-zA-Z0-9_., ]+)"#) {
            Ok(p) => p,
            Err(e) => return Err(e),
        };
        let re_go_import = match compile_or_report(r#"['"]([^'"]+)['"]"#) {
            Ok(p) => p,
            Err(e) => return Err(e),
        };
        let re_rust_mod = match compile_or_report(r#"mod\s+([a-zA-Z0-9_]+);"#) {
            Ok(p) => p,
            Err(e) => return Err(e),
        };
        let re_rust_use = match compile_or_report(r#"use\s+([a-zA-Z0-9_]+)(?:::|;)"#) {
            Ok(p) => p,
            Err(e) => return Err(e),
        };
        let re_cpp_include = match compile_or_report(r#"#include\s+["']([^"']+)["']"#) {
            Ok(p) => p,
            Err(e) => return Err(e),
        };
        let re_java_import = match compile_or_report(r#"import\s+([a-zA-Z0-9_.]+);"#) {
            Ok(p) => p,
            Err(e) => return Err(e),
        };
        let re_cs_using = match compile_or_report(r#"using\s+([a-zA-Z0-9_.]+);"#) {
            Ok(p) => p,
            Err(e) => return Err(e),
        };
        Ok(Parser {
            re_js_import_from,
            re_js_import_simple,
            re_js_require,
            re_js_dynamic_import,
            re_py_from_import,
            re_py_import,
            re_go_import,
            re_rust_mod,
            re_rust_use,
            re_cpp_include,
            re_java_import,
            re_cs_using,
        })
    }
}

/// Whether `t` begins with `p`.
pub open spec fn begins_with(t: Seq<char>, p: Seq<char>) -> bool {
    p.len() <= t.len() && t.take(p.len() as int) == p
}

/// Whether a trimmed line is a comment in the language: it begins with
/// `//`, `/*` or `*`, or with `#` in Python.
pub open spec fn is_comment(lang: Language, t: Seq<char>) -> bool {
    match lang {
        Language::Python => begins_with(t, "#"@),
        _ => begins_with(t, "//"@) || begins_with(t, "/*"@) || begins_with(t, "*"@),
    }
}

/// Whether a trimmed line is a comment in the language.
pub fn is_comment_line(lang: Language, t: &Vec<char>) -> (b: bool)
    ensures
        b == is_comment(lang, t@),
{
    match lang {
        Language::Python => starts_with_chars(t, "#"),
        _ => starts_with_chars(t, "//") || starts_with_chars(t, "/*") || starts_with_chars(t, "*"),
    }
}

/// The pieces that splitting `s` at every `sep` yields, as `str::split`
/// yields them: empty pieces included, one more piece than separators.
pub open spec fn split_on(s: Seq<char>, sep: char) -> Seq<Seq<char>>
    decreases s.len(),
{
    if s.len() == 0 {
        seq![Seq::<char>::empty()]
    } else {
        let p = split_on(s.drop_last(), sep);
        if s.last() == sep {
            p.push(Seq::<char>::empty())
        } else {
            p.update(p.len() - 1, p.last().push(s.last()))
        }
    }
}

pub proof fn lemma_split_on_nonempty(s: Seq<char>, sep: char)
    ensures
        split_on(s, sep).len() >= 1,
    decreases s.len(),
{
    if s.len() > 0 {
        lemma_split_on_nonempty(s.drop_last(), sep);
    }
}

/// Each piece without its surrounding whitespace.
pub open spec fn trim_all(ps: Seq<Seq<char>>) -> Seq<Seq<char>> {
    ps.map_values(|p: Seq<char>| trim_ws(p))
}

/// The module names of a Python import list such as `os, sys`: the list
/// split at its commas, each piece trimmed.
pub open spec fn import_list(list: Seq<char>) -> Seq<Seq<char>> {
    trim_all(split_on(list, ','))
}

/// Split `s` at every `sep`, as `str::split` does.
pub fn split_at_char(s: &str, sep: char) -> (parts: Vec<String>)
    ensures
        string_views(parts@) == split_on(s@, sep),
{
    let cs = chars_of(s);
    let mut parts: Vec<String> = Vec::new();
    let mut cur = String::new();
    let mut i: usize = 0;
    assert(cs@.take(0) =~= Seq::<char>::empty());
    while i < cs.len()
        invariant
            i <= cs@.len(),
            cs@ == s@,
            split_on(cs@.take(i as int), sep) == string_views(parts@).push(cur@),
        decreases cs.len() - i,
    {
        let c = cs[i];
        assert(cs@.take(i + 1).drop_last() =~= cs@.take(i as int));
        let ghost before = parts@;
        if c == sep {
            let piece = cur;
            parts.push(piece);
            cur = String::new();
            assert(string_views(parts@) =~= string_views(before).push(piece@));
        } else {
            push_char(&mut cur, c);
        }
        assert(split_on(cs@.take(i + 1), sep) =~= string_views(parts@).push(cur@));
        i = i + 1;
    }
    assert(cs@.take(cs@.len() as int) =~= cs@);
    let ghost before = parts@;
    let last = cur;
    parts.push(last);
    assert(string_views(parts@) =~= string_views(before).push(last@));
    parts
}

/// Split an import list at its commas and trim each piece.
pub fn split_import_list(list: &str) -> (parts: Vec<String>)
    ensures
        string_views(parts@) == import_list(list@),
{
    let pieces = split_at_char(list, ',');
    let mut parts: Vec<String> = Vec::new();
    let mut i: usize = 0;
    while i < pieces.len()
        invariant
            i <= pieces@.len(),
            string_views(pieces@) == split_on(list@, ','),
            parts@.len() == i,
            forall|j: int| 0 <= j < i ==> #[trigger] parts@[j]@ == trim_ws(pieces@[j]@),
        decreases pieces.len() - i,
    {
        parts.push(trim(pieces[i].as_str()));
        i = i + 1;
    }
    assert(string_views(parts@) =~= import_list(list@)) by {
        assert forall|j: int| 0 <= j < parts@.len() implies string_views(parts@)[j] == import_list(list@)[j] by {
            assert(string_views(pieces@)[j] == pieces@[j]@);
        }
    }
    parts
}

/// The one-element list of a found import, or the empty list.
pub open spec fn as_list(o: Option<Seq<char>>) -> Seq<Seq<char>> {
    match o {
        Some(m) => seq![m],
        None => Seq::empty(),
    }
}

/// `a` if it holds a value, else `b`.
pub open spec fn or_else(a: Option<Seq<char>>, b: Option<Seq<char>>) -> Option<Seq<char>> {
    if a is Some {
        a
    } else {
        b
    }
}

/// What each of the scanner's patterns captured in its first group on one
/// line (`None` where it did not match, or was not run).
pub struct CaptureViews {
    pub js_import_from: Option<Seq<char>>,
    pub js_import_simple: Option<Seq<char>>,
    pub js_require: Option<Seq<char>>,
    pub js_dynamic_import: Option<Seq<char>>,
    pub py_from_import: Option<Seq<char>>,
    pub py_import: Option<Seq<char>>,
    pub go_import: Option<Seq<char>>,
    pub rust_mod: Option<Seq<char>>,
    pub rust_use: Option<Seq<char>>,
    pub cpp_include: Option<Seq<char>>,
    pub java_import: Option<Seq<char>>,
    pub cs_using: Option<Seq<char>>,
}

/// What each of the scanner's patterns captured in its first group on one
/// line (`None` where it did not match, or was not run).
pub struct LineCaptures {
    pub js_import_from: Option<String>,
    pub js_import_simple: Option<String>,
    pub js_require: Option<String>,
    pub js_dynamic_import: Option<String>,
    pub py_from_import: Option<String>,
    pub py_import: Option<String>,
    pub go_import: Option<String>,
    pub rust_mod: Option<String>,
    pub rust_use: Option<String>,
    pub cpp_include: Option<String>,
    pub java_import: Option<String>,
    pub cs_using: Option<String>,
}

impl View for LineCaptures {
    type V = CaptureViews;

    open spec fn view(&self) -> CaptureViews {
        CaptureViews {
            js_import_from: opt_chars(self.js_import_from),
            js_import_simple: opt_chars(self.js_import_simple),
            js_require: opt_chars(self.js_require),
            js_dynamic_import: opt_chars(self.js_dynamic_import),
            py_from_import: opt_chars(self.py_from_import),
            py_import: opt_chars(self.py_import),
            go_import: opt_chars(self.go_import),
            rust_mod: opt_chars(self.rust_mod),
            rust_use: opt_chars(self.rust_use),
            cpp_include: opt_chars(self.cpp_include),
            java_import: opt_chars(self.java_import),
            cs_using: opt_chars(self.cs_using),
        }
    }
}

impl LineCaptures {
    /// No pattern captured anything.
    pub fn none() -> (c: Self)
        ensures
            c@.js_import_from is None,
            c@.js_import_simple is None,
            c@.js_require is None,
            c@.js_dynamic_import is None,
            c@.py_from_import is None,
            c@.py_import is None,
            c@.go_import is None,
            c@.rust_mod is None,
            c@.rust_use is None,
            c@.cpp_include is None,
            c@.java_import is None,
            c@.cs_using is None,
    {
        LineCaptures {
            js_import_from: None,
            js_import_simple: None,
            js_require: None,
            js_dynamic_import: None,
            py_from_import: None,
            py_import: None,
            go_import: None,
            rust_mod: None,
            rust_use: None,
            cpp_include: None,
            java_import: None,
            cs_using: None,
        }
    }
}

/// What the patterns capture on the trimmed line `t`.
pub open spec fn line_captures(t: Seq<char>) -> CaptureViews {
    CaptureViews {
        js_import_from: first_group(js_import_from_source(), t),
        js_import_simple: first_group(js_import_simple_source(), t),
        js_require: first_group(js_require_source(), t),
        js_dynamic_import: first_group(js_dynamic_import_source(), t),
        py_from_import: first_group(py_from_import_source(), t),
        py_import: first_group(py_import_source(), t),
        go_import: first_group(go_import_source(), t),
        rust_mod: first_group(rust_mod_source(), t),
        rust_use: first_group(rust_use_source(), t),
        cpp_include: first_group(cpp_include_source(), t),
        java_import: first_group(java_import_source(), t),
        cs_using: first_group(cs_using_source(), t),
    }
}

/// What a trimmed line `t` that is neither blank nor a comment yields, given
/// what the patterns captured on it: its imports, and whether a Go
/// `import ( ... )` block is open after it. Only the captures of the
/// line's language are read, each only where the ones before it found
/// nothing.
pub open spec fn captured_imports(lang: Language, in_block: bool, t: Seq<char>, c: CaptureViews) -> (Seq<Seq<char>>, bool) {
    match lang {
        Language::JavaScript | Language::TypeScript => (
            as_list(
                or_else(
                    or_else(
                        or_else(c.js_import_from, c.js_import_simple),
                        c.js_require,
                    ),
                    c.js_dynamic_import,
                ),
            ),
            in_block,
        ),
        Language::Python => (
            match c.py_from_import {
                Some(m) => seq![m],
                None => match c.py_import {
                    Some(list) => import_list(list),
                    None => Seq::empty(),
                },
            },
            in_block,
        ),
        Language::Go => if begins_with(t, "import ("@) {
            (Seq::empty(), true)
        } else if in_block {
            if t == ")"@ {
                (Seq::empty(), false)
            } else {
                (as_list(c.go_import), true)
            }
        } else if begins_with(t, "import "@) {
            (as_list(c.go_import), false)
        } else {
            (Seq::empty(), false)
        },
        Language::Rust => (as_list(or_else(c.rust_mod, c.rust_use)), in_block),
        Language::Cpp | Language::Header => (as_list(c.cpp_include), in_block),
        Language::Java => (as_list(c.java_import), in_block),
        Language::CSharp => (as_list(c.cs_using), in_block),
    }
}

/// What a trimmed line that is neither blank nor a comment yields: its
/// imports, and whether a Go `import ( ... )` block is open after it.
pub open spec fn statement_imports(lang: Language, in_block: bool, t: Seq<char>) -> (Seq<Seq<char>>, bool) {
    captured_imports(lang, in_block, t, line_captures(t))
}

/// What one line yields: nothing for a blank or comment line, else what its
/// trimmed statement yields.
pub open spec fn line_imports(lang: Language, in_block: bool, line: Seq<char>) -> (Seq<Seq<char>>, bool) {
    let t = trim_ws(line);
    if t.len() == 0 || is_comment(lang, t) {
        (Seq::empty(), in_block)
    } else {
        statement_imports(lang, in_block, t)
    }
}

/// The imports of a file's lines, in order, and the Go block state after
/// the last line (no block is open before the first).
pub open spec fn scan_lines(lang: Language, lines: Seq<Seq<char>>) -> (Seq<Seq<char>>, bool)
    decreases lines.len(),
{
    if lines.len() == 0 {
        (Seq::empty(), false)
    } else {
        let prev = scan_lines(lang, lines.drop_last());
        let step = line_imports(lang, prev.1, lines.last());
        (prev.0 + step.0, step.1)
    }
}

/// A list with the found import, if any.
fn found_list(o: Option<String>) -> (v: Vec<String>)
    ensures
        string_views(v@) == as_list(opt_chars(o)),
{
    let mut v: Vec<String> = Vec::new();
    match o {
        Some(m) => {
            v.push(m);
            assert(string_views(v@) =~= as_list(opt_chars(Some(m))));
        },
        None => {
            assert(string_views(v@) =~= Seq::<Seq<char>>::empty());
        },
    }
    v
}

/// The first of two optional captures that holds a value.
fn first_found(a: Option<String>, b: Option<String>) -> (res: Option<String>)
    ensures
        opt_chars(res) == or_else(opt_chars(a), opt_chars(b)),
{
    match a {
        Some(m) => Some(m),
        None => b,
    }
}

/// What a trimmed line (characters `tc`) that is neither blank nor a
/// comment yields, given what the patterns captured on it, as
/// `captured_imports` says.
pub fn statement_imports_from(lang: Language, in_block: bool, tc: &Vec<char>, caps: LineCaptures) -> (res: (
    Vec<String>,
    bool,
))
    ensures
        (string_views(res.0@), res.1) == captured_imports(lang, in_block, tc@, caps@),
{
    match lang {
        Language::JavaScript | Language::TypeScript => {
            let found = first_found(
                first_found(first_found(caps.js_import_from, caps.js_import_simple), caps.js_require),
                caps.js_dynamic_import,
            );
            (found_list(found), in_block)
        },
        Language::Python => {
            match caps.py_from_import {
                Some(m) => (found_list(Some(m)), in_block),
                None => match caps.py_import {
                    Some(list) => (split_import_list(list.as_str()), in_block),
                    None => (found_list(None), in_block),
                },
            }
        },
        Language::Go => {
            if starts_with_chars(tc, "import (") {
                (found_list(None), true)
            } else if in_block {
                if same_chars(tc, ")") {
                    (found_list(None), false)
                } else {
                    (found_list(caps.go_import), true)
                }
            } else if starts_with_chars(tc, "import ") {
                (found_list(caps.go_import), false)
            } else {
                (found_list(None), false)
            }
        },
        Language::Rust => (found_list(first_found(caps.rust_mod, caps.rust_use)), in_block),
        Language::Cpp | Language::Header => (found_list(caps.cpp_include), in_block),
        Language::Java => (found_list(caps.java_import), in_block),
        Language::CSharp => (found_list(caps.cs_using), in_block),
    }
}

impl Parser {
    /// Run the patterns of `lang` on the trimmed line `t`, each only where the
    /// ones before it in the language's order found nothing; the others are
    /// left `None`.
    pub fn line_captures(&self, lang: Language, t: &str) -> (c: LineCaptures)
        ensures
            forall|b: bool| #[trigger] captured_imports(lang, b, t@, c@) == captured_imports(lang, b, t@, line_captures(t@)),
    {
        proof {
            use_type_invariant(self);
        }
        let mut c = LineCaptures::none();
        match lang {
            Language::JavaScript | Language::TypeScript => {
                c.js_import_from = capture(&self.re_js_import_from, t);
                if c.js_import_from.is_none() {
                    c.js_import_simple = capture(&self.re_js_import_simple, t);
                    if c.js_import_simple.is_none() {
                        c.js_require = capture(&self.re_js_require, t);
                        if c.js_require.is_none() {
                            c.js_dynamic_import = capture(&self.re_js_dynamic_import, t);
                        }
                    }
                }
            },
            Language::Python => {
                c.py_from_import = capture(&self.re_py_from_import, t);
                if c.py_from_import.is_none() {
                    c.py_import = capture(&self.re_py_import, t);
                }
            },
            Language::Go => {
                c.go_import = capture(&self.re_go_import, t);
            },
            Language::Rust => {
                c.rust_mod = capture(&self.re_rust_mod, t);
                if c.rust_mod.is_none() {
                    c.rust_use = capture(&self.re_rust_use, t);
                }
            },
            Language::Cpp | Language::Header => {
                c.cpp_include = capture(&self.re_cpp_include, t);
            },
            Language::Java => {
                c.java_import = capture(&self.re_java_import, t);
            },
            Language::CSharp => {
                c.cs_using = capture(&self.re_cs_using, t);
            },
        }
        c
    }

    /// What a trimmed line `t` (with characters `tc`) that is neither blank
    /// nor a comment yields, as `statement_imports` says.
    pub fn statement_imports(&self, lang: Language, in_block: bool, t: &str, tc: &Vec<char>) -> (res: (Vec<String>, bool))
        requires
            tc@ == t@,
        ensures
            (string_views(res.0@), res.1) == statement_imports(lang, in_block, t@),
    {
        let caps = self.line_captures(lang, t);
        let res = statement_imports_from(lang, in_block, tc, caps);
        assert(captured_imports(lang, in_block, t@, caps@) == captured_imports(lang, in_block, t@, line_captures(t@)));
        res
    }

    /// The record of a source file, from what was read of it: its extension,
    /// its path relative to the root, its base name, its size in bytes and
    /// its lines. `None` when the extension names no known language.
    pub fn parse_file(
        &self,
        extension: &str,
        relative_path: &str,
        name: &str,
        size: u64,
        lines: &Vec<String>,
    ) -> (res: Option<FileInfo>)
        ensures
            match language_of_extension(lowercase(extension@)) {
                None => res is None,
                Some(lang) => res matches Some(f) && {
                    &&& f.path@ == forward_slashes(relative_path@)
                    &&& f.name@ == name@
                    &&& f.size == size
                    &&& f.lines == lines@.len()
                    &&& f.language@ == language_name(lang)
                    &&& string_views(f.imports@) == scan_lines(lang, string_views(lines@)).0
                },
            },
    {
        proof {
            use_type_invariant(self);
        }
        let lang = match language_for_extension(extension) {
            Some(l) => l,
            None => return None,
        };
        let mut imports: Vec<String> = Vec::new();
        let mut in_block = false;
        let mut i: usize = 0;
        assert(string_views(lines@).take(0) =~= Seq::<Seq<char>>::empty());
        while i < lines.len()
            invariant
                i <= lines@.len(),
                self.wf(),
                scan_lines(lang, string_views(lines@).take(i as int)) == (string_views(imports@), in_block),
            decreases lines.len() - i,
        {
            let ghost ls = string_views(lines@);
            assert(ls.take(i + 1).drop_last() =~= ls.take(i as int));
            assert(ls.take(i + 1).last() == lines@[i as int]@);
            let t = trim(lines[i].as_str());
            let tc = chars_of(t.as_str());
            if tc.len() > 0 && !is_comment_line(lang, &tc) {
                let (mut found, next) = self.statement_imports(lang, in_block, t.as_str(), &tc);
                let ghost before = imports@;
                let ghost got = found@;
                imports.append(&mut found);
                assert(string_views(imports@) =~= string_views(before) + string_views(got));
                in_block = next;
            } else {
                assert(string_views(imports@) =~= string_views(imports@) + Seq::<Seq<char>>::empty());
            }
            i = i + 1;
        }
        assert(string_views(lines@).take(lines@.len() as int) =~= string_views(lines@));
        let path = to_forward_slashes(relative_path);
        Some(FileInfo {
            path,
            name: String::from_str(name),
            size,
            lines: lines.len(),
            language: lang.name(),
            imports,
        })
    }
}

/// What the scanner records of one source file.
#[derive(Debug, Clone)]
pub struct FileInfo {
    /// Relative path from the root, `/`-separated.
    pub path: String,
    /// Base name of the file.
    pub name: String,
    /// File size in bytes.
    pub size: u64,
    /// Number of lines.
    pub lines: usize,
    /// Detected programming language.
    pub language: String,
    /// The raw import and include targets, in order.
    pub imports: Vec<String>,
}

/// Header files are scanned exactly like C and C++ files: every line, in
/// every block state, yields the same, and so does every file's lines. A
/// statement of either yields the target that the `#include` pattern
/// captures on it, or nothing when the pattern does not match, and leaves
/// the block state as it was.
pub proof fn law_header_like_cpp(b: bool, t: Seq<char>, c: CaptureViews, lines: Seq<Seq<char>>)
    ensures
        captured_imports(Language::Header, b, t, c) == captured_imports(Language::Cpp, b, t, c),
        captured_imports(Language::Cpp, b, t, c).1 == b,
        c.cpp_include matches Some(m) ==> captured_imports(Language::Cpp, b, t, c).0 == seq![m],
        c.cpp_include is None ==> captured_imports(Language::Cpp, b, t, c).0.len() == 0,
        statement_imports(Language::Header, b, t) == statement_imports(Language::Cpp, b, t),
        first_group(cpp_include_source(), t) matches Some(m) ==> statement_imports(Language::Cpp, b, t).0 == seq![m],
        first_group(cpp_include_source(), t) is None ==> statement_imports(Language::Cpp, b, t).0.len() == 0,
        line_imports(Language::Header, b, t) == line_imports(Language::Cpp, b, t),
        scan_lines(Language::Header, lines) == scan_lines(Language::Cpp, lines),
    decreases lines.len(),
{
    if lines.len() > 0 {
        law_header_like_cpp(b, t, c, lines.drop_last());
        let prev = scan_lines(Language::Cpp, lines.drop_last());
        law_header_like_cpp(prev.1, trim_ws(lines.last()), line_captures(trim_ws(lines.last())), Seq::empty());
    }
}

/// What each language's statement yields from what its patterns captured:
///  - JavaScript and TypeScript alike: the first capture found among
///    `import ... from`, a bare `import`, `require(...)` and a dynamic
///    `import(...)`;
///  - Python: a `from ... import` module, else each module of an
///    `import` list;
///  - Rust: a `mod` name, else a `use` crate;
///  - C, C++ and headers: the `#include` target; Java: the `import`;
///    C#: the `using`;
///  - and nothing where no pattern of the language captured anything.
/// Only Go statements change the block state.
pub proof fn law_captured_imports(lang: Language, b: bool, t: Seq<char>, c: CaptureViews)
    ensures
        lang != Language::Go ==> captured_imports(lang, b, t, c).1 == b,
        captured_imports(Language::JavaScript, b, t, c) == captured_imports(Language::TypeScript, b, t, c),
        c.js_import_from matches Some(m) ==> captured_imports(Language::JavaScript, b, t, c).0 == seq![m],
        c.js_import_from is None ==> (c.js_import_simple matches Some(m) ==> captured_imports(
            Language::JavaScript,
            b,
            t,
            c,
        ).0 == seq![m]),
        c.js_import_from is None && c.js_import_simple is None ==> (c.js_require matches Some(m) ==> captured_imports(
            Language::JavaScript,
            b,
            t,
            c,
        ).0 == seq![m]),
        c.js_import_from is None && c.js_import_simple is None && c.js_require is None ==> (
        c.js_dynamic_import matches Some(m) ==> captured_imports(Language::JavaScript, b, t, c).0 == seq![m]),
        c.js_import_from is None && c.js_import_simple is None && c.js_require is None && c.js_dynamic_import is None
            ==> captured_imports(Language::JavaScript, b, t, c).0.len() == 0,
        c.py_from_import matches Some(m) ==> captured_imports(Language::Python, b, t, c).0 == seq![m],
        c.py_from_import is None ==> (c.py_import matches Some(l) ==> captured_imports(Language::Python, b, t, c).0
            == import_list(l)),
        c.py_from_import is None && c.py_import is None ==> captured_imports(Language::Python, b, t, c).0.len() == 0,
        c.rust_mod matches Some(m) ==> captured_imports(Language::Rust, b, t, c).0 == seq![m],
        c.rust_mod is None ==> (c.rust_use matches Some(m) ==> captured_imports(Language::Rust, b, t, c).0 == seq![m]),
        c.rust_mod is None && c.rust_use is None ==> captured_imports(Language::Rust, b, t, c).0.len() == 0,
        c.java_import matches Some(m) ==> captured_imports(Language::Java, b, t, c).0 == seq![m],
        c.java_import is None ==> captured_imports(Language::Java, b, t, c).0.len() == 0,
        c.cs_using matches Some(m) ==> captured_imports(Language::CSharp, b, t, c).0 == seq![m],
        c.cs_using is None ==> captured_imports(Language::CSharp, b, t, c).0.len() == 0,
        captured_imports(Language::Header, b, t, c) == captured_imports(Language::Cpp, b, t, c),
        c.cpp_include matches Some(m) ==> captured_imports(Language::Cpp, b, t, c).0 == seq![m],
        c.cpp_include is None ==> captured_imports(Language::Cpp, b, t, c).0.len() == 0,
{
}

/// The Go import block: a statement that begins with `import (` opens it and
/// yields nothing; inside it a line `)` closes it and yields nothing, and any
/// other line yields the quoted path it holds; outside it, an `import `
/// statement yields its quoted path and anything else yields nothing.
pub proof fn law_go_import_block(b: bool, t: Seq<char>, c: CaptureViews)
    ensures
        ({
            let r = captured_imports(Language::Go, b, t, c);
            let found: Seq<Seq<char>> = match c.go_import {
                Some(m) => seq![m],
                None => Seq::empty(),
            };
            &&& begins_with(t, "import ("@) ==> r == (Seq::<Seq<char>>::empty(), true)
            &&& !begins_with(t, "import ("@) && b && t == ")"@ ==> r == (Seq::<Seq<char>>::empty(), false)
            &&& !begins_with(t, "import ("@) && b && t != ")"@ ==> r == (found, true)
            &&& !begins_with(t, "import ("@) && !b && begins_with(t, "import "@) ==> r == (found, false)
            &&& !begins_with(t, "import ("@) && !b && !begins_with(t, "import "@) ==> r == (
                Seq::<Seq<char>>::empty(),
                false,
            )
        }),
{
}

} // verus!
