//! Relative paths of a scanned source tree, `/`-separated, and the
//! resolution of an import to a file of the tree.

use vstd::prelude::*;
use crate::text::{chars_of, push_char, string_of, string_views};

verus! {

/// `dir` joined with `rel` as a Unix path join does it: an absolute `rel`
/// replaces `dir`; otherwise a `/` goes between them unless `dir` is empty
/// or already ends with one.
pub open spec fn join_path(dir: Seq<char>, rel: Seq<char>) -> Seq<char> {
    if rel.len() > 0 && rel[0] == '/' {
        rel
    } else if dir.len() == 0 || dir.last() == '/' {
        dir + rel
    } else {
        dir + seq!['/'] + rel
    }
}

/// `s` with every backslash turned into a slash.
pub open spec fn forward_slashes(s: Seq<char>) -> Seq<char> {
    s.map_values(|c: char| if c == '\\' { '/' } else { c })
}

/// `s` with every leading `./` removed.
pub open spec fn trim_dot_slash(s: Seq<char>) -> Seq<char>
    decreases s.len(),
{
    if s.len() >= 2 && s[0] == '.' && s[1] == '/' {
        trim_dot_slash(s.skip(2))
    } else {
        s
    }
}

/// `s` with its trailing slashes removed.
pub open spec fn trim_trailing_slashes(s: Seq<char>) -> Seq<char>
    decreases s.len(),
{
    if s.len() > 0 && s.last() == '/' {
        trim_trailing_slashes(s.drop_last())
    } else {
        s
    }
}

/// Position of the last `/` in `s`, if any.
pub open spec fn last_slash(s: Seq<char>) -> Option<int>
    decreases s.len(),
{
    if s.len() == 0 {
        None
    } else if s.last() == '/' {
        Some(s.len() - 1)
    } else {
        last_slash(s.drop_last())
    }
}

/// The parent of a path: the path without its last component, trailing
/// slashes ignored; `None` for the empty path and the root. For paths whose
/// components are separated by single slashes and hold no `.` component,
/// this is what `Path::parent` gives on Unix.
pub open spec fn parent_dir(p: Seq<char>) -> Option<Seq<char>> {
    let q = trim_trailing_slashes(p);
    if q.len() == 0 {
        None
    } else {
        match last_slash(q) {
            None => Some(Seq::empty()),
            Some(i) => {
                let head = trim_trailing_slashes(q.take(i));
                if head.len() == 0 {
                    Some(seq!['/'])
                } else {
                    Some(head)
                }
            },
        }
    }
}

/// Join two paths as `join_path` says.
pub fn join(dir: &str, rel: &str) -> (res: String)
    ensures
        res@ == join_path(dir@, rel@),
{
    let d = chars_of(dir);
    let r = chars_of(rel);
    if r.len() > 0 && r[0] == '/' {
        return string_of(&r, 0, r.len());
    }
    let mut out = string_of(&d, 0, d.len());
    if d.len() > 0 && d[d.len() - 1] != '/' {
        push_char(&mut out, '/');
    }
    let mut i: usize = 0;
    let ghost base = out@;
    while i < r.len()
        invariant
            i <= r@.len(),
            out@ == base + r@.take(i as int),
        decreases r.len() - i,
    {
        push_char(&mut out, r[i]);
        assert(r@.take(i + 1) =~= r@.take(i as int).push(r@[i as int]));
        i = i + 1;
    }
    assert(r@.take(r@.len() as int) =~= r@);
    assert(d@.subrange(0, d@.len() as int) =~= d@);
    assert(r@.subrange(0, r@.len() as int) =~= r@);
    out
}

/// Turn every backslash of `s` into a slash.
pub fn to_forward_slashes(s: &str) -> (res: String)
    ensures
        res@ == forward_slashes(s@),
{
    let cs = chars_of(s);
    let mut out = String::new();
    let mut i: usize = 0;
    while i < cs.len()
        invariant
            i <= cs@.len(),
            cs@ == s@,
            out@ == forward_slashes(cs@.take(i as int)),
        decreases cs.len() - i,
    {
        let c = cs[i];
        push_char(&mut out, if c == '\\' { '/' } else { c });
        assert(forward_slashes(cs@.take(i + 1)) =~= forward_slashes(cs@.take(i as int)).push(
            if c == '\\' { '/' } else { c },
        ));
        i = i + 1;
    }
    assert(cs@.take(cs@.len() as int) =~= cs@);
    out
}

/// Remove every leading `./` of `s`.
pub fn strip_dot_slash(s: &str) -> (res: String)
    ensures
        res@ == trim_dot_slash(s@),
{
    let cs = chars_of(s);
    let mut i: usize = 0;
    assert(cs@.skip(0) =~= cs@);
    while cs.len() - i >= 2 && cs[i] == '.' && cs[i + 1] == '/'
        invariant
            i <= cs@.len(),
            cs@ == s@,
            trim_dot_slash(s@) == trim_dot_slash(cs@.skip(i as int)),
        decreases cs.len() - i,
    {
        assert(cs@.skip(i as int).skip(2) =~= cs@.skip(i + 2));
        i = i + 2;
    }
    assert(cs@.subrange(i as int, cs@.len() as int) =~= cs@.skip(i as int));
    string_of(&cs, i, cs.len())
}

/// The parent of a path, as `parent_dir` says.
pub fn parent(p: &str) -> (res: Option<String>)
    ensures
        match res {
            Some(s) => parent_dir(p@) == Some(s@),
            None => parent_dir(p@) is None,
        },
{
    let cs = chars_of(p);
    let mut end = cs.len();
    assert(cs@.take(cs@.len() as int) =~= cs@);
    while end > 0 && cs[end - 1] == '/'
        invariant
            end <= cs@.len(),
            cs@ == p@,
            trim_trailing_slashes(p@) == trim_trailing_slashes(cs@.take(end as int)),
        decreases end,
    {
        assert(cs@.take(end as int).drop_last() =~= cs@.take(end - 1));
        end = end - 1;
    }
    let ghost q = cs@.take(end as int);
    assert(trim_trailing_slashes(q) == q);
    assert(cs@.take(cs@.len() as int) =~= cs@);
    if end == 0 {
        return None;
    }
    let mut k = end;
    while k > 0 && cs[k - 1] != '/'
        invariant
            k <= end,
            end <= cs@.len(),
            q == cs@.take(end as int),
            last_slash(q) == last_slash(cs@.take(k as int)),
        decreases k,
    {
        assert(cs@.take(k as int).drop_last() =~= cs@.take(k - 1));
        k = k - 1;
    }
    if k == 0 {
        assert(cs@.take(0) =~= Seq::<char>::empty());
        return Some(String::new());
    }
    let slash = k - 1;
    assert(last_slash(cs@.take(k as int)) == Some(slash as int));
    assert(q.take(slash as int) =~= cs@.take(slash as int));
    let mut h = slash;
    while h > 0 && cs[h - 1] == '/'
        invariant
            h <= slash,
            slash < cs@.len(),
            trim_trailing_slashes(cs@.take(slash as int)) == trim_trailing_slashes(cs@.take(h as int)),
        decreases h,
    {
        assert(cs@.take(h as int).drop_last() =~= cs@.take(h - 1));
        h = h - 1;
    }
    assert(trim_trailing_slashes(cs@.take(h as int)) == cs@.take(h as int));
    if h == 0 {
        assert(cs@.take(0) =~= Seq::<char>::empty());
        let mut root = String::new();
        push_char(&mut root, '/');
        assert(root@ =~= seq!['/']);
        Some(root)
    } else {
        assert(cs@.subrange(0, h as int) =~= cs@.take(h as int));
        Some(string_of(&cs, 0, h))
    }
}

/// Whether `set` holds a string with the characters of `s`.
pub fn holds(set: &Vec<String>, s: &String) -> (b: bool)
    ensures
        b == string_views(set@).contains(s@),
{
    let mut i: usize = 0;
    while i < set.len()
        invariant
            i <= set@.len(),
            forall|j: int| 0 <= j < i ==> set@[j]@ != s@,
        decreases set.len() - i,
    {
        if set[i] == *s {
            assert(string_views(set@)[i as int] == s@);
            return true;
        }
        i = i + 1;
    }
    assert forall|j: int| 0 <= j < string_views(set@).len() implies string_views(set@)[j] != s@ by {
        assert(string_views(set@)[j] == set@[j]@);
    }
    false
}

/// Resolve a relative JavaScript import against the importing file's directory.
pub fn resolve_js_import(f_dir: &str, imp: &str) -> (res: String)
    ensures
        res@ == forward_slashes(join_path(f_dir@, imp@)),
{
    let joined = join(f_dir, imp);
    to_forward_slashes(joined.as_str())
}

/// The suffixes tried, in order, to find the file an import names.
pub open spec fn source_suffixes() -> Seq<Seq<char>> {
    seq![
        ""@, ".ts"@, ".tsx"@, ".js"@, ".jsx"@, ".d.ts"@, ".rs"@, ".go"@, ".py"@, ".cpp"@, ".cc"@,
        ".c"@, ".h"@, ".hpp"@, ".java"@, ".cs"@, "/index.ts"@, "/index.tsx"@, "/index.js"@,
    ]
}

/// The first of `base` followed by each suffix, leading `./` removed, that
/// `files` holds.
pub open spec fn first_existing(base: Seq<char>, suffixes: Seq<Seq<char>>, files: Seq<Seq<char>>) -> Option<Seq<char>>
    decreases suffixes.len(),
{
    if suffixes.len() == 0 {
        None
    } else {
        let c = trim_dot_slash(base + suffixes[0]);
        if files.contains(c) {
            Some(c)
        } else {
            first_existing(base, suffixes.drop_first(), files)
        }
    }
}

/// The first candidate of `base` with one of `suffixes` that `files` holds.
fn find_with_suffixes(base: &str, suffixes: &[&str], files: &Vec<String>) -> (res: Option<String>)
    ensures
        match res {
            Some(s) => first_existing(base@, suffixes@.map_values(|x: &str| x@), string_views(files@)) == Some(s@),
            None => first_existing(base@, suffixes@.map_values(|x: &str| x@), string_views(files@)) is None,
        },
{
    let ghost sv = suffixes@.map_values(|x: &str| x@);
    let mut i: usize = 0;
    assert(sv.skip(0) =~= sv);
    while i < suffixes.len()
        invariant
            i <= suffixes@.len(),
            sv == suffixes@.map_values(|x: &str| x@),
            first_existing(base@, sv, string_views(files@)) == first_existing(base@, sv.skip(i as int), string_views(files@)),
        decreases suffixes.len() - i,
    {
        assert(sv.skip(i as int)[0] == suffixes@[i as int]@);
        assert(sv.skip(i as int).drop_first() =~= sv.skip(i + 1));
        let mut candidate = String::from_str(base);
        candidate.append(suffixes[i]);
        let cleaned = strip_dot_slash(candidate.as_str());
        if holds(files, &cleaned) {
            return Some(cleaned);
        }
        i = i + 1;
    }
    None
}

/// Find the file of the tree that `path_str` names, trying the known
/// source-file suffixes in order.
pub fn find_existing_file(path_str: &str, file_map: &Vec<String>) -> (res: Option<String>)
    ensures
        match res {
            Some(s) => first_existing(path_str@, source_suffixes(), string_views(file_map@)) == Some(s@),
            None => first_existing(path_str@, source_suffixes(), string_views(file_map@)) is None,
        },
{
    let extensions: [&str; 19] = [
        "", ".ts", ".tsx", ".js", ".jsx", ".d.ts", ".rs", ".go", ".py", ".cpp", ".cc", ".c", ".h",
        ".hpp", ".java", ".cs", "/index.ts", "/index.tsx", "/index.js",
    ];
    let suffixes = extensions.as_slice();
    assert(suffixes@.map_values(|x: &str| x@) =~= source_suffixes());
    find_with_suffixes(path_str, suffixes, file_map)
}

/// The suffixes tried to find the module file a Python import names.
pub open spec fn python_suffixes() -> Seq<Seq<char>> {
    seq![".py"@, "/__init__.py"@]
}

/// Find the Python module file (or package `__init__.py`) that `path_str` names.
pub fn find_existing_py_file(path_str: &str, file_map: &Vec<String>) -> (res: Option<String>)
    ensures
        match res {
            Some(s) => first_existing(path_str@, python_suffixes(), string_views(file_map@)) == Some(s@),
            None => first_existing(path_str@, python_suffixes(), string_views(file_map@)) is None,
        },
{
    let candidates: [&str; 2] = [".py", "/__init__.py"];
    let suffixes = candidates.as_slice();
    assert(suffixes@.map_values(|x: &str| x@) =~= python_suffixes());
    find_with_suffixes(path_str, suffixes, file_map)
}

/// Number of leading dots of `s`.
pub open spec fn leading_dots(s: Seq<char>) -> nat
    decreases s.len(),
{
    if s.len() > 0 && s[0] == '.' {
        1 + leading_dots(s.drop_first())
    } else {
        0
    }
}

/// `s` with every dot turned into a slash.
pub open spec fn dots_to_slashes(s: Seq<char>) -> Seq<char> {
    s.map_values(|c: char| if c == '.' { '/' } else { c })
}

/// Turn every dot of `s` into a slash.
pub fn replace_dots(s: &str) -> (res: String)
    ensures
        res@ == dots_to_slashes(s@),
{
    let cs = chars_of(s);
    let mut out = String::new();
    let mut i: usize = 0;
    while i < cs.len()
        invariant
            i <= cs@.len(),
            cs@ == s@,
            out@ == dots_to_slashes(cs@.take(i as int)),
        decreases cs.len() - i,
    {
        let c = cs[i];
        push_char(&mut out, if c == '.' { '/' } else { c });
        assert(dots_to_slashes(cs@.take(i + 1)) =~= dots_to_slashes(cs@.take(i as int)).push(
            if c == '.' { '/' } else { c },
        ));
        i = i + 1;
    }
    assert(cs@.take(cs@.len() as int) =~= cs@);
    out
}

/// `dir` after going up `n` levels; a path with no parent stays as it is.
pub open spec fn ascend(dir: Seq<char>, n: nat) -> Seq<char>
    decreases n,
{
    if n == 0 {
        dir
    } else {
        match parent_dir(dir) {
            Some(p) => ascend(p, (n - 1) as nat),
            None => ascend(dir, (n - 1) as nat),
        }
    }
}

/// The path a relative Python import (`from .. import`) names: one level up
/// per dot after the first, then the module path with dots as slashes.
pub open spec fn python_import_path(f_dir: Seq<char>, imp: Seq<char>) -> Seq<char> {
    let dots = leading_dots(imp);
    let up = if dots > 0 { (dots - 1) as nat } else { 0 };
    forward_slashes(join_path(ascend(f_dir, up), dots_to_slashes(imp.skip(dots as int))))
}

proof fn lemma_leading_dots(s: Seq<char>, i: int)
    requires
        0 <= i <= s.len(),
        forall|j: int| 0 <= j < i ==> s[j] == '.',
        i == s.len() || s[i] != '.',
    ensures
        leading_dots(s) == i,
    decreases i,
{
    if i > 0 {
        lemma_leading_dots(s.drop_first(), i - 1);
    }
}

/// Resolve a relative Python import against the importing file's directory.
pub fn resolve_py_import(f_dir: &str, imp: &str) -> (res: String)
    ensures
        res@ == python_import_path(f_dir@, imp@),
{
    let cs = chars_of(imp);
    let mut dots: usize = 0;
    while dots < cs.len() && cs[dots] == '.'
        invariant
            dots <= cs@.len(),
            cs@ == imp@,
            forall|j: int| 0 <= j < dots ==> cs@[j] == '.',
        decreases cs.len() - dots,
    {
        dots = dots + 1;
    }
    proof {
        lemma_leading_dots(imp@, dots as int);
    }
    let mut module_rel = String::new();
    let mut k = dots;
    while k < cs.len()
        invariant
            dots <= k <= cs@.len(),
            cs@ == imp@,
            module_rel@ == dots_to_slashes(cs@.subrange(dots as int, k as int)),
        decreases cs.len() - k,
    {
        let c = cs[k];
        push_char(&mut module_rel, if c == '.' { '/' } else { c });
        assert(dots_to_slashes(cs@.subrange(dots as int, k + 1)) =~= dots_to_slashes(
            cs@.subrange(dots as int, k as int),
        ).push(if c == '.' { '/' } else { c }));
        k = k + 1;
    }
    assert(cs@.subrange(dots as int, cs@.len() as int) =~= imp@.skip(dots as int));
    let mut dir = String::from_str(f_dir);
    let ghost up: nat = if dots > 0 { (dots - 1) as nat } else { 0 };
    let mut step: usize = 1;
    while step < dots
        invariant
            1 <= step,
            step <= (if dots > 0 { dots } else { 1 }),
            ascend(f_dir@, up) == ascend(dir@, (up - (step - 1)) as nat),
            up == if dots > 0 { (dots - 1) as nat } else { 0nat },
        decreases dots - step,
    {
        match parent(dir.as_str()) {
            Some(p) => {
                dir = p;
            },
            None => {},
        }
        step = step + 1;
    }
    let joined = join(dir.as_str(), module_rel.as_str());
    to_forward_slashes(joined.as_str())
}

} // verus!
