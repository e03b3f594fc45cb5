//! The dependency graph of a scanned source tree: which paths are skipped,
//! the Go module a tree declares, and the nodes and links of the graph.

use vstd::prelude::*;
use crate::text::{
    chars_of, contains_chars, contains_run, ends_with_chars, starts_with_chars, string_of,
    string_views, trim, trim_ws,
};
use crate::code::paths::{
    dots_to_slashes, find_existing_file, find_existing_py_file, first_existing, forward_slashes,
    holds, join_path, last_slash, parent, parent_dir, python_import_path, python_suffixes,
    replace_dots, resolve_js_import, resolve_py_import, source_suffixes, to_forward_slashes, trim_dot_slash,
    trim_trailing_slashes,
};
use crate::code::parser::{
    as_list, begins_with, language_name, language_of_extension, lemma_split_on_nonempty, opt_chars, same_chars, split_at_char, split_on,
    FileInfo, Language,
};

verus! {

/// Line `i` of a text cut at its newlines: a carriage return that ends a
/// line before its newline is dropped.
pub open spec fn line_of(pieces: Seq<Seq<char>>, i: int) -> Seq<char> {
    let p = pieces[i];
    if i < pieces.len() - 1 && p.len() > 0 && p.last() == '\r' {
        p.drop_last()
    } else {
        p
    }
}

/// The lines of a text, as `str::lines` yields them: split at `\n`, a
/// `\r` before the `\n` removed, and no empty line after a final newline.
pub open spec fn text_lines(s: Seq<char>) -> Seq<Seq<char>> {
    let pieces = split_on(s, '\n');
    let n: int = if pieces.last().len() == 0 {
        pieces.len() - 1
    } else {
        pieces.len() as int
    };
    Seq::new(n as nat, |i: int| line_of(pieces, i))
}

/// The lines of a text, as `text_lines` says.
pub fn lines_of(s: &str) -> (lines: Vec<String>)
    ensures
        string_views(lines@) == text_lines(s@),
{
    let pieces = split_at_char(s, '\n');
    let ghost ps = split_on(s@, '\n');
    proof {
        lemma_split_on_nonempty(s@, '\n');
    }
    assert(string_views(pieces@)[pieces@.len() - 1] == pieces@[pieces@.len() - 1]@);
    let last_empty = pieces[pieces.len() - 1].unicode_len() == 0;
    let n: usize = if last_empty {
        pieces.len() - 1
    } else {
        pieces.len()
    };
    let mut lines: Vec<String> = Vec::new();
    let mut i: usize = 0;
    while i < n
        invariant
            i <= n,
            n <= pieces@.len(),
            ps == string_views(pieces@),
            ps.len() == pieces@.len(),
            lines@.len() == i,
            forall|j: int| 0 <= j < i ==> #[trigger] lines@[j]@ == line_of(ps, j),
        decreases n - i,
    {
        assert(ps[i as int] == pieces@[i as int]@);
        let p = chars_of(pieces[i].as_str());
        let k = p.len();
        if i + 1 < pieces.len() && k > 0 && p[k - 1] == '\r' {
            assert(p@.subrange(0, k - 1) =~= p@.drop_last());
            lines.push(string_of(&p, 0, k - 1));
        } else {
            assert(p@.subrange(0, k as int) =~= p@);
            lines.push(string_of(&p, 0, k));
        }
        i = i + 1;
    }
    assert(string_views(lines@) =~= text_lines(s@));
    lines
}

/// The module path that the first `module` line of a `go.mod` text's
/// lines declares, trimmed.
pub open spec fn module_of(lines: Seq<Seq<char>>) -> Option<Seq<char>>
    decreases lines.len(),
{
    if lines.len() == 0 {
        None
    } else {
        let t = trim_ws(lines[0]);
        if begins_with(t, "module "@) {
            Some(trim_ws(t.skip("module "@.len() as int)))
        } else {
            module_of(lines.drop_first())
        }
    }
}

/// The Go module path that a `go.mod` text declares, if any.
pub fn go_module_name(content: &str) -> (res: Option<String>)
    ensures
        opt_chars(res) == module_of(text_lines(content@)),
{
    let lines = lines_of(content);
    let ghost ls = string_views(lines@);
    let keyword = chars_of("module ");
    let mut i: usize = 0;
    assert(ls.skip(0) =~= ls);
    while i < lines.len()
        invariant
            i <= lines@.len(),
            ls == string_views(lines@),
            ls == text_lines(content@),
            keyword@ == "module "@,
            module_of(ls) == module_of(ls.skip(i as int)),
        decreases lines.len() - i,
    {
        assert(ls.skip(i as int)[0] == lines@[i as int]@);
        assert(ls.skip(i as int).drop_first() =~= ls.skip(i + 1));
        let t = trim(lines[i].as_str());
        let tc = chars_of(t.as_str());
        if starts_with_chars(&tc, "module ") {
            let k = keyword.len();
            assert(tc@.subrange(k as int, tc@.len() as int) =~= tc@.skip(k as int));
            let rest = string_of(&tc, k, tc.len());
            return Some(trim(rest.as_str()));
        }
        i = i + 1;
    }
    None
}

/// The path fragments that mark a file of a build or tool directory.
pub open spec fn ignored_markers() -> Seq<Seq<char>> {
    seq![
        "/.git/"@, "/node_modules/"@, "/target/"@, "/build/"@, "/dist/"@, "/wailsjs/"@,
        "/.wails/"@, "/.vscode/"@, "/.idea/"@,
    ]
}

/// Whether a path, with forward slashes, holds one of the markers.
pub open spec fn is_ignored(p: Seq<char>) -> bool {
    exists|k: int| 0 <= k < ignored_markers().len() && contains_run(forward_slashes(p), #[trigger] ignored_markers()[k])
}

/// Whether the scan skips the file at `path`.
pub fn is_ignored_path(path: &str) -> (b: bool)
    ensures
        b == is_ignored(path@),
{
    let markers: [&str; 9] = [
        "/.git/", "/node_modules/", "/target/", "/build/", "/dist/", "/wailsjs/", "/.wails/",
        "/.vscode/", "/.idea/",
    ];
    let ms = markers.as_slice();
    assert(ms@.map_values(|x: &str| x@) =~= ignored_markers());
    let fs = to_forward_slashes(path);
    let hay = chars_of(fs.as_str());
    let mut i: usize = 0;
    while i < ms.len()
        invariant
            i <= ms@.len(),
            ms@.len() == 9,
            ms@.map_values(|x: &str| x@) == ignored_markers(),
            hay@ == forward_slashes(path@),
            forall|k: int| 0 <= k < i ==> !contains_run(hay@, #[trigger] ignored_markers()[k]),
        decreases ms.len() - i,
    {
        assert(ignored_markers()[i as int] == ms@[i as int]@);
        let needle = chars_of(ms[i]);
        if contains_chars(&hay, &needle) {
            return true;
        }
        i = i + 1;
    }
    false
}

/// Whether a path component names something (it is neither empty nor `.`).
pub open spec fn is_named(c: Seq<char>) -> bool {
    c.len() > 0 && c != "."@
}

/// The named components of a path's pieces, in order.
pub open spec fn named_components(ps: Seq<Seq<char>>) -> Seq<Seq<char>>
    decreases ps.len(),
{
    if ps.len() == 0 {
        Seq::empty()
    } else {
        let rest = named_components(ps.drop_last());
        if is_named(ps.last()) {
            rest.push(ps.last())
        } else {
            rest
        }
    }
}

/// The last component of a path, as `Path::file_name` gives it: `None`
/// when the path has no named component or ends in `..`.
pub open spec fn file_name_of(p: Seq<char>) -> Option<Seq<char>> {
    let cs = named_components(split_on(p, '/'));
    if cs.len() == 0 || cs.last() == ".."@ {
        None
    } else {
        Some(cs.last())
    }
}

/// The last component of a path, as `file_name_of` says.
pub fn file_name(p: &str) -> (res: Option<String>)
    ensures
        opt_chars(res) == file_name_of(p@),
{
    let pieces = split_at_char(p, '/');
    let ghost ps = string_views(pieces@);
    let mut last: Option<usize> = None;
    let mut i: usize = 0;
    assert(ps.take(0) =~= Seq::<Seq<char>>::empty());
    while i < pieces.len()
        invariant
            i <= pieces@.len(),
            ps == string_views(pieces@),
            ps.len() == pieces@.len(),
            match last {
                None => named_components(ps.take(i as int)).len() == 0,
                Some(k) => k < i && named_components(ps.take(i as int)).len() > 0
                    && named_components(ps.take(i as int)).last() == ps[k as int],
            },
        decreases pieces.len() - i,
    {
        assert(ps.take(i + 1).drop_last() =~= ps.take(i as int));
        assert(ps[i as int] == pieces@[i as int]@);
        let c = chars_of(pieces[i].as_str());
        if c.len() > 0 && !same_chars(&c, ".") {
            last = Some(i);
        }
        i = i + 1;
    }
    assert(ps.take(ps.len() as int) =~= ps);
    assert(ps == split_on(p@, '/'));
    match last {
        None => None,
        Some(k) => {
            assert(ps[k as int] == pieces@[k as int]@);
            let c = chars_of(pieces[k].as_str());
            if same_chars(&c, "..") {
                None
            } else {
                Some(pieces[k].clone())
            }
        },
    }
}

/// Whether `t` ends with `s`.
pub open spec fn finishes_with(t: Seq<char>, s: Seq<char>) -> bool {
    s.len() <= t.len() && t.skip(t.len() - s.len()) == s
}

/// `s` without its leading slashes.
pub open spec fn trim_leading_slashes(s: Seq<char>) -> Seq<char>
    decreases s.len(),
{
    if s.len() > 0 && s[0] == '/' {
        trim_leading_slashes(s.drop_first())
    } else {
        s
    }
}

/// The Go files of `files`, in order, whose path begins with `rel`.
pub open spec fn go_package_files(files: Seq<Seq<char>>, rel: Seq<char>) -> Seq<Seq<char>>
    decreases files.len(),
{
    if files.len() == 0 {
        Seq::empty()
    } else {
        let r = go_package_files(files.drop_last(), rel);
        let c = files.last();
        if begins_with(c, rel) && finishes_with(c, ".go"@) {
            r.push(c)
        } else {
            r
        }
    }
}

/// The first of `files` that ends with `name`.
pub open spec fn first_ending_with(files: Seq<Seq<char>>, name: Seq<char>) -> Option<Seq<char>>
    decreases files.len(),
{
    if files.len() == 0 {
        None
    } else if finishes_with(files[0], name) {
        Some(files[0])
    } else {
        first_ending_with(files.drop_first(), name)
    }
}

/// The language a file record names.
pub open spec fn language_named(name: Seq<char>) -> Option<Language> {
    if name == "go"@ {
        Some(Language::Go)
    } else if name == "rust"@ {
        Some(Language::Rust)
    } else if name == "javascript"@ {
        Some(Language::JavaScript)
    } else if name == "typescript"@ {
        Some(Language::TypeScript)
    } else if name == "python"@ {
        Some(Language::Python)
    } else if name == "cpp"@ {
        Some(Language::Cpp)
    } else if name == "header"@ {
        Some(Language::Header)
    } else if name == "java"@ {
        Some(Language::Java)
    } else if name == "csharp"@ {
        Some(Language::CSharp)
    } else {
        None
    }
}

/// The language a file record names, as `language_named` says.
pub fn language_by_name(name: &str) -> (res: Option<Language>)
    ensures
        res == language_named(name@),
{
    let n = chars_of(name);
    if same_chars(&n, "go") {
        Some(Language::Go)
    } else if same_chars(&n, "rust") {
        Some(Language::Rust)
    } else if same_chars(&n, "javascript") {
        Some(Language::JavaScript)
    } else if same_chars(&n, "typescript") {
        Some(Language::TypeScript)
    } else if same_chars(&n, "python") {
        Some(Language::Python)
    } else if same_chars(&n, "cpp") {
        Some(Language::Cpp)
    } else if same_chars(&n, "header") {
        Some(Language::Header)
    } else if same_chars(&n, "java") {
        Some(Language::Java)
    } else if same_chars(&n, "csharp") {
        Some(Language::CSharp)
    } else {
        None
    }
}

/// The files of the tree that an import of a file resolves to.
///  - JavaScript and TypeScript: a relative import (one that begins with
///    `.`), joined to the importing file's directory and tried with the
///    known source suffixes.
///  - Python: a relative import resolved as `python_import_path` says, an
///    absolute one with its dots as slashes, tried as a module file and as
///    a package.
///  - Go: with a module path declared, an import under it names every Go
///    file whose path begins with the rest of the import.
///  - Rust: the module as a file next to the importing one, else as a
///    `mod` file in a directory of that name.
///  - C and C++: the include joined to the importing file's directory if
///    the tree holds it, else the first file whose path ends with the
///    include's file name.
pub open spec fn import_targets(
    lang: Option<Language>,
    f_dir: Seq<char>,
    imp: Seq<char>,
    files: Seq<Seq<char>>,
    go_module: Option<Seq<char>>,
) -> Seq<Seq<char>> {
    match lang {
        Some(Language::JavaScript) | Some(Language::TypeScript) => if begins_with(imp, "."@) {
            as_list(first_existing(forward_slashes(join_path(f_dir, imp)), source_suffixes(), files))
        } else {
            Seq::empty()
        },
        Some(Language::Python) => {
            let rel = if begins_with(imp, "."@) {
                python_import_path(f_dir, imp)
            } else {
                dots_to_slashes(imp)
            };
            as_list(first_existing(rel, python_suffixes(), files))
        },
        Some(Language::Go) => match go_module {
            Some(m) => if begins_with(imp, m) {
                go_package_files(files, trim_leading_slashes(imp.skip(m.len() as int)))
            } else {
                Seq::empty()
            },
            None => Seq::empty(),
        },
        Some(Language::Rust) => {
            let c1 = forward_slashes(join_path(f_dir, imp));
            let c2 = forward_slashes(join_path(f_dir, imp + "/mod"@));
            match first_existing(c1, source_suffixes(), files) {
                Some(t) => seq![t],
                None => as_list(first_existing(c2, source_suffixes(), files)),
            }
        },
        Some(Language::Cpp) | Some(Language::Header) => {
            let resolved = forward_slashes(join_path(f_dir, imp));
            if files.contains(resolved) {
                seq![resolved]
            } else {
                match file_name_of(imp) {
                    Some(n) => as_list(first_ending_with(files, n)),
                    None => Seq::empty(),
                }
            }
        },
        _ => Seq::empty(),
    }
}

/// A list with the found file, if any.
fn one_or_none(o: Option<String>) -> (v: Vec<String>)
    ensures
        string_views(v@) == as_list(opt_chars(o)),
{
    let mut v: Vec<String> = Vec::new();
    match o {
        Some(m) => {
            v.push(m);
            assert(string_views(v@) =~= as_list(opt_chars(Some(m))));
        },
        None => {
            assert(string_views(v@) =~= Seq::<Seq<char>>::empty());
        },
    }
    v
}

/// `s` without its leading slashes.
fn strip_leading_slashes(s: &Vec<char>, from: usize) -> (res: String)
    requires
        from <= s@.len(),
    ensures
        res@ == trim_leading_slashes(s@.skip(from as int)),
{
    let mut i = from;
    while i < s.len() && s[i] == '/'
        invariant
            from <= i <= s@.len(),
            trim_leading_slashes(s@.skip(from as int)) == trim_leading_slashes(s@.skip(i as int)),
        decreases s.len() - i,
    {
        assert(s@.skip(i as int).drop_first() =~= s@.skip(i + 1));
        i = i + 1;
    }
    assert(s@.subrange(i as int, s@.len() as int) =~= s@.skip(i as int));
    string_of(s, i, s.len())
}

/// The Go files of `files` whose path begins with `rel`.
fn go_files_under(files: &Vec<String>, rel: &str) -> (res: Vec<String>)
    ensures
        string_views(res@) == go_package_files(string_views(files@), rel@),
{
    let go = chars_of(".go");
    let mut res: Vec<String> = Vec::new();
    let mut i: usize = 0;
    let ghost fs = string_views(files@);
    assert(fs.take(0) =~= Seq::<Seq<char>>::empty());
    while i < files.len()
        invariant
            i <= files@.len(),
            fs == string_views(files@),
            go@ == ".go"@,
            string_views(res@) == go_package_files(fs.take(i as int), rel@),
        decreases files.len() - i,
    {
        assert(fs.take(i + 1).drop_last() =~= fs.take(i as int));
        assert(fs[i as int] == files@[i as int]@);
        let c = chars_of(files[i].as_str());
        if starts_with_chars(&c, rel) && ends_with_chars(&c, &go) {
            let ghost before = res@;
            res.push(files[i].clone());
            assert(string_views(res@) =~= string_views(before).push(files@[i as int]@));
        }
        i = i + 1;
    }
    assert(fs.take(fs.len() as int) =~= fs);
    res
}

/// The first of `files` that ends with `name`.
fn first_file_ending_with(files: &Vec<String>, name: &str) -> (res: Option<String>)
    ensures
        opt_chars(res) == first_ending_with(string_views(files@), name@),
{
    let n = chars_of(name);
    let ghost fs = string_views(files@);
    let mut i: usize = 0;
    assert(fs.skip(0) =~= fs);
    while i < files.len()
        invariant
            i <= files@.len(),
            fs == string_views(files@),
            n@ == name@,
            first_ending_with(fs, name@) == first_ending_with(fs.skip(i as int), name@),
        decreases files.len() - i,
    {
        assert(fs.skip(i as int)[0] == files@[i as int]@);
        assert(fs.skip(i as int).drop_first() =~= fs.skip(i + 1));
        let c = chars_of(files[i].as_str());
        if ends_with_chars(&c, &n) {
            return Some(files[i].clone());
        }
        i = i + 1;
    }
    None
}

/// The files of the tree that one import resolves to, as `import_targets` says.
pub fn resolve_import(
    lang: Option<Language>,
    f_dir: &str,
    imp: &str,
    files: &Vec<String>,
    go_module: &Option<String>,
) -> (res: Vec<String>)
    ensures
        string_views(res@) == import_targets(lang, f_dir@, imp@, string_views(files@), opt_chars(*go_module)),
{
    let ic = chars_of(imp);
    match lang {
        Some(Language::JavaScript) | Some(Language::TypeScript) => {
            if starts_with_chars(&ic, ".") {
                let resolved = resolve_js_import(f_dir, imp);
                one_or_none(find_existing_file(resolved.as_str(), files))
            } else {
                one_or_none(None)
            }
        },
        Some(Language::Python) => {
            let rel = if starts_with_chars(&ic, ".") {
                resolve_py_import(f_dir, imp)
            } else {
                replace_dots(imp)
            };
            one_or_none(find_existing_py_file(rel.as_str(), files))
        },
        Some(Language::Go) => match go_module {
            Some(m) => {
                if starts_with_chars(&ic, m.as_str()) {
                    let rest = strip_leading_slashes(&ic, m.unicode_len());
                    go_files_under(files, rest.as_str())
                } else {
                    one_or_none(None)
                }
            },
            None => one_or_none(None),
        },
        Some(Language::Rust) => {
            let c1 = resolve_js_import(f_dir, imp);
            match find_existing_file(c1.as_str(), files) {
                Some(t) => one_or_none(Some(t)),
                None => {
                    let mut sub = String::from_str(imp);
                    sub.append("/mod");
                    let c2 = resolve_js_import(f_dir, sub.as_str());
                    one_or_none(find_existing_file(c2.as_str(), files))
                },
            }
        },
        Some(Language::Cpp) | Some(Language::Header) => {
            let resolved = resolve_js_import(f_dir, imp);
            if holds(files, &resolved) {
                one_or_none(Some(resolved))
            } else {
                match file_name(imp) {
                    Some(n) => one_or_none(first_file_ending_with(files, n.as_str())),
                    None => one_or_none(None),
                }
            }
        },
        _ => one_or_none(None),
    }
}

/// Each element once, at its first occurrence.
pub open spec fn dedup<A>(s: Seq<A>) -> Seq<A>
    decreases s.len(),
{
    if s.len() == 0 {
        Seq::empty()
    } else {
        let d = dedup(s.drop_last());
        if d.contains(s.last()) {
            d
        } else {
            d.push(s.last())
        }
    }
}

/// A directed dependency: the file `source` imports the file `target`.
#[derive(Debug, Clone)]
pub struct GraphLink {
    pub source: String,
    pub target: String,
}

/// The (source, target) pairs of links.
pub open spec fn link_views(ls: Seq<GraphLink>) -> Seq<(Seq<char>, Seq<char>)> {
    ls.map_values(|l: GraphLink| (l.source@, l.target@))
}

/// The paths of file records.
pub open spec fn file_paths(fs: Seq<FileInfo>) -> Seq<Seq<char>> {
    fs.map_values(|f: FileInfo| f.path@)
}

/// The directory of a file path; the empty path when it has no parent.
pub open spec fn dir_of(p: Seq<char>) -> Seq<char> {
    match parent_dir(p) {
        Some(d) => d,
        None => Seq::empty(),
    }
}

/// Each target paired with `source`.
pub open spec fn paired(source: Seq<char>, ts: Seq<Seq<char>>) -> Seq<(Seq<char>, Seq<char>)> {
    ts.map_values(|t: Seq<char>| (source, t))
}

/// The links of a file's imports `imps`, in order.
pub open spec fn import_links(
    f: FileInfo,
    imps: Seq<Seq<char>>,
    files: Seq<Seq<char>>,
    go_module: Option<Seq<char>>,
) -> Seq<(Seq<char>, Seq<char>)>
    decreases imps.len(),
{
    if imps.len() == 0 {
        Seq::empty()
    } else {
        import_links(f, imps.drop_last(), files, go_module) + paired(
            f.path@,
            import_targets(language_named(f.language@), dir_of(f.path@), imps.last(), files, go_module),
        )
    }
}

/// The links of every file's imports, file by file, repeats included.
pub open spec fn link_pairs(fs: Seq<FileInfo>, files: Seq<Seq<char>>, go_module: Option<Seq<char>>) -> Seq<(Seq<char>, Seq<char>)>
    decreases fs.len(),
{
    if fs.len() == 0 {
        Seq::empty()
    } else {
        link_pairs(fs.drop_last(), files, go_module) + import_links(
            fs.last(),
            string_views(fs.last().imports@),
            files,
            go_module,
        )
    }
}

/// The links of a scanned tree: every resolved import, each link once.
pub open spec fn graph_links(fs: Seq<FileInfo>, go_module: Option<Seq<char>>) -> Seq<(Seq<char>, Seq<char>)> {
    dedup(link_pairs(fs, file_paths(fs), go_module))
}

/// Add a link unless `links` holds it already.
fn insert_link(links: &mut Vec<GraphLink>, source: &String, target: &String)
    ensures
        link_views(final(links)@) == (if link_views(old(links)@).contains((source@, target@)) {
            link_views(old(links)@)
        } else {
            link_views(old(links)@).push((source@, target@))
        }),
{
    let ghost lv = link_views(links@);
    let mut k: usize = 0;
    while k < links.len()
        invariant
            k <= links@.len(),
            lv == link_views(links@),
            forall|j: int| 0 <= j < k ==> lv[j] != (source@, target@),
        decreases links.len() - k,
    {
        if links[k].source == *source && links[k].target == *target {
            assert(lv[k as int] == (source@, target@));
            return;
        }
        assert(lv[k as int] == (links@[k as int].source@, links@[k as int].target@));
        k = k + 1;
    }
    assert(!lv.contains((source@, target@)));
    links.push(GraphLink { source: source.clone(), target: target.clone() });
    assert(link_views(links@) =~= lv.push((source@, target@)));
}

/// The paths of file records, in order.
fn paths_of(files: &Vec<FileInfo>) -> (paths: Vec<String>)
    ensures
        string_views(paths@) == file_paths(files@),
{
    let mut paths: Vec<String> = Vec::new();
    let mut i: usize = 0;
    while i < files.len()
        invariant
            i <= files@.len(),
            paths@.len() == i,
            forall|j: int| 0 <= j < i ==> #[trigger] paths@[j]@ == files@[j].path@,
        decreases files.len() - i,
    {
        paths.push(files[i].path.clone());
        i = i + 1;
    }
    assert(string_views(paths@) =~= file_paths(files@));
    paths
}

proof fn lemma_dedup_push<A>(s: Seq<A>, x: A)
    ensures
        dedup(s.push(x)) == (if dedup(s).contains(x) {
            dedup(s)
        } else {
            dedup(s).push(x)
        }),
{
    assert(s.push(x).drop_last() =~= s);
}

/// The links of a scanned tree, as `graph_links` says: each file's imports
/// resolved in order, a link kept at its first occurrence.
pub fn build_links(files: &Vec<FileInfo>, go_module: &Option<String>) -> (links: Vec<GraphLink>)
    ensures
        link_views(links@) == graph_links(files@, opt_chars(*go_module)),
{
    let paths = paths_of(files);
    let ghost fv = file_paths(files@);
    let ghost gm = opt_chars(*go_module);
    let mut links: Vec<GraphLink> = Vec::new();
    let ghost mut done: Seq<(Seq<char>, Seq<char>)> = Seq::empty();
    let mut i: usize = 0;
    assert(files@.take(0) =~= Seq::<FileInfo>::empty());
    while i < files.len()
        invariant
            i <= files@.len(),
            string_views(paths@) == fv,
            fv == file_paths(files@),
            gm == opt_chars(*go_module),
            done == link_pairs(files@.take(i as int), fv, gm),
            link_views(links@) == dedup(done),
        decreases files.len() - i,
    {
        let f = &files[i];
        let lang = language_by_name(f.language.as_str());
        let dir = match parent(f.path.as_str()) {
            Some(d) => d,
            None => String::new(),
        };
        assert(dir@ == dir_of(f.path@));
        let ghost base = done;
        let ghost imps = string_views(f.imports@);
        let mut j: usize = 0;
        assert(imps.take(0) =~= Seq::<Seq<char>>::empty());
        while j < f.imports.len()
            invariant
                j <= f.imports@.len(),
                imps == string_views(f.imports@),
                string_views(paths@) == fv,
                gm == opt_chars(*go_module),
                lang == language_named(f.language@),
                dir@ == dir_of(f.path@),
                done == base + import_links(*f, imps.take(j as int), fv, gm),
                link_views(links@) == dedup(done),
            decreases f.imports.len() - j,
        {
            assert(imps.take(j + 1).drop_last() =~= imps.take(j as int));
            assert(imps[j as int] == f.imports@[j as int]@);
            let targets = resolve_import(lang, dir.as_str(), f.imports[j].as_str(), &paths, go_module);
            let ghost ts = string_views(targets@);
            let ghost mid = done;
            let mut k: usize = 0;
            assert(paired(f.path@, ts.take(0)) =~= Seq::<(Seq<char>, Seq<char>)>::empty());
            assert(mid + paired(f.path@, ts.take(0)) =~= mid);
            while k < targets.len()
                invariant
                    k <= targets@.len(),
                    ts == string_views(targets@),
                    done == mid + paired(f.path@, ts.take(k as int)),
                    link_views(links@) == dedup(done),
                decreases targets.len() - k,
            {
                proof {
                    lemma_dedup_push(done, (f.path@, targets@[k as int]@));
                }
                insert_link(&mut links, &f.path, &targets[k]);
                assert(ts[k as int] == targets@[k as int]@);
                assert(paired(f.path@, ts.take(k + 1)) =~= paired(f.path@, ts.take(k as int)).push(
                    (f.path@, ts[k as int]),
                ));
                proof {
                    done = done.push((f.path@, targets@[k as int]@));
                }
                k = k + 1;
            }
            assert(ts.take(ts.len() as int) =~= ts);
            assert(done =~= base + import_links(*f, imps.take(j + 1), fv, gm));
            j = j + 1;
        }
        assert(imps.take(imps.len() as int) =~= imps);
        assert(files@.take(i + 1).drop_last() =~= files@.take(i as int));
        assert(files@.take(i + 1).last() == *f);
        i = i + 1;
    }
    assert(files@.take(files@.len() as int) =~= files@);
    links
}

proof fn lemma_trim_trailing(s: Seq<char>)
    ensures
        trim_trailing_slashes(s).len() <= s.len(),
        trim_trailing_slashes(s).len() == 0 || trim_trailing_slashes(s).last() != '/',
    decreases s.len(),
{
    if s.len() > 0 && s.last() == '/' {
        lemma_trim_trailing(s.drop_last());
    }
}

proof fn lemma_last_slash(s: Seq<char>)
    ensures
        last_slash(s) matches Some(i) ==> 0 <= i < s.len() && s[i] == '/',
    decreases s.len(),
{
    if s.len() > 0 && s.last() != '/' {
        lemma_last_slash(s.drop_last());
    }
}

/// A parent is shorter than its path.
pub proof fn lemma_parent_shorter(p: Seq<char>)
    ensures
        parent_dir(p) matches Some(q) ==> q.len() < p.len(),
{
    let q = trim_trailing_slashes(p);
    lemma_trim_trailing(p);
    lemma_last_slash(q);
    if q.len() > 0 {
        if let Some(i) = last_slash(q) {
            lemma_trim_trailing(q.take(i));
        }
    }
}

/// The directories above a path, nearest first, the empty path left out.
pub open spec fn ancestors(p: Seq<char>) -> Seq<Seq<char>>
    decreases p.len(),
{
    match parent_dir(p) {
        None => Seq::empty(),
        Some(q) => {
            proof {
                lemma_parent_shorter(p);
            }
            if q.len() > 0 {
                seq![q] + ancestors(q)
            } else {
                ancestors(q)
            }
        },
    }
}

/// The directories above every file, file by file, repeats included.
pub open spec fn all_ancestors(fs: Seq<FileInfo>) -> Seq<Seq<char>>
    decreases fs.len(),
{
    if fs.len() == 0 {
        Seq::empty()
    } else {
        all_ancestors(fs.drop_last()) + ancestors(fs.last().path@)
    }
}

/// The directories of a scanned tree: every directory above a file, once
/// each, in the order the files reach them.
pub open spec fn graph_folders(fs: Seq<FileInfo>) -> Seq<Seq<char>> {
    dedup(all_ancestors(fs))
}

/// Add a directory unless `folders` holds it already.
fn insert_folder(folders: &mut Vec<String>, d: &String)
    ensures
        string_views(final(folders)@) == (if string_views(old(folders)@).contains(d@) {
            string_views(old(folders)@)
        } else {
            string_views(old(folders)@).push(d@)
        }),
{
    let ghost before = string_views(folders@);
    if holds(folders, d) {
        return;
    }
    folders.push(d.clone());
    assert(string_views(folders@) =~= before.push(d@));
}

/// The directories of a scanned tree, as `graph_folders` says.
pub fn collect_folders(files: &Vec<FileInfo>) -> (folders: Vec<String>)
    ensures
        string_views(folders@) == graph_folders(files@),
{
    let mut folders: Vec<String> = Vec::new();
    let ghost mut done: Seq<Seq<char>> = Seq::empty();
    let mut i: usize = 0;
    assert(files@.take(0) =~= Seq::<FileInfo>::empty());
    while i < files.len()
        invariant
            i <= files@.len(),
            done == all_ancestors(files@.take(i as int)),
            string_views(folders@) == dedup(done),
        decreases files.len() - i,
    {
        let f = &files[i];
        let ghost base = done;
        let ghost mut walked: Seq<Seq<char>> = Seq::empty();
        let mut cur = f.path.clone();
        let mut more = true;
        assert(base + walked =~= base);
        while more
            invariant
                ancestors(f.path@) == walked + (if more { ancestors(cur@) } else { Seq::empty() }),
                done == base + walked,
                string_views(folders@) == dedup(done),
            decreases cur@.len() + (if more { 1int } else { 0int }),
        {
            proof {
                lemma_parent_shorter(cur@);
            }
            match parent(cur.as_str()) {
                None => {
                    more = false;
                    assert(walked + Seq::<Seq<char>>::empty() =~= walked);
                },
                Some(q) => {
                    if q.unicode_len() > 0 {
                        proof {
                            lemma_dedup_push(done, q@);
                        }
                        insert_folder(&mut folders, &q);
                        proof {
                            done = done.push(q@);
                            walked = walked.push(q@);
                        }
                        assert(seq![q@] + ancestors(q@) =~= seq![q@].add(ancestors(q@)));
                        assert(walked.drop_last() + (seq![q@] + ancestors(q@)) =~= walked + ancestors(q@));
                    }
                    cur = q;
                },
            }
        }
        assert(files@.take(i + 1).drop_last() =~= files@.take(i as int));
        assert(files@.take(i + 1).last() == *f);
        i = i + 1;
    }
    assert(files@.take(files@.len() as int) =~= files@);
    folders
}

/// A node of the graph: a directory or a source file.
#[derive(Debug, Clone)]
pub struct GraphNode {
    /// The relative path.
    pub id: String,
    /// The base name.
    pub name: String,
    /// `dir` or `file`.
    pub node_type: String,
    /// Size in bytes; 0 for a directory.
    pub size: u64,
    /// Number of lines; 0 for a directory.
    pub lines: usize,
    /// The file's language; `folder` for a directory.
    pub language: String,
}

/// The nodes and links of a scanned tree.
#[derive(Debug, Clone)]
pub struct GraphData {
    pub nodes: Vec<GraphNode>,
    pub links: Vec<GraphLink>,
}

/// The node of a directory.
pub open spec fn is_dir_node(n: GraphNode, dir: Seq<char>) -> bool {
    &&& n.id@ == dir
    &&& n.name@ == (match file_name_of(dir) {
        Some(x) => x,
        None => Seq::empty(),
    })
    &&& n.node_type@ == "dir"@
    &&& n.size == 0
    &&& n.lines == 0
    &&& n.language@ == "folder"@
}

/// The node of a source file.
pub open spec fn is_file_node(n: GraphNode, f: FileInfo) -> bool {
    &&& n.id@ == f.path@
    &&& n.name@ == f.name@
    &&& n.node_type@ == "file"@
    &&& n.size == f.size
    &&& n.lines == f.lines
    &&& n.language@ == f.language@
}

/// The graph of a scanned tree: a node per directory (as `graph_folders`
/// lists them), then a node per file, in order; and the links that
/// `graph_links` gives.
pub fn build_graph(files: &Vec<FileInfo>, go_module: &Option<String>) -> (g: GraphData)
    ensures
        g.nodes@.len() == graph_folders(files@).len() + files@.len(),
        forall|i: int| 0 <= i < graph_folders(files@).len() ==> is_dir_node(#[trigger] g.nodes@[i], graph_folders(files@)[i]),
        forall|j: int| 0 <= j < files@.len() ==> is_file_node(#[trigger] g.nodes@[graph_folders(files@).len() + j], files@[j]),
        link_views(g.links@) == graph_links(files@, opt_chars(*go_module)),
{
    let folders = collect_folders(files);
    let ghost fs = graph_folders(files@);
    let mut nodes: Vec<GraphNode> = Vec::new();
    let mut i: usize = 0;
    while i < folders.len()
        invariant
            i <= folders@.len(),
            string_views(folders@) == fs,
            nodes@.len() == i,
            forall|k: int| 0 <= k < i ==> is_dir_node(#[trigger] nodes@[k], fs[k]),
        decreases folders.len() - i,
    {
        assert(fs[i as int] == folders@[i as int]@);
        let name = match file_name(folders[i].as_str()) {
            Some(n) => n,
            None => String::new(),
        };
        nodes.push(GraphNode {
            id: folders[i].clone(),
            name,
            node_type: String::from_str("dir"),
            size: 0,
            lines: 0,
            language: String::from_str("folder"),
        });
        i = i + 1;
    }
    let nf = folders.len();
    let mut j: usize = 0;
    while j < files.len()
        invariant
            j <= files@.len(),
            nf == fs.len(),
            nodes@.len() == nf + j,
            forall|k: int| 0 <= k < nf ==> is_dir_node(#[trigger] nodes@[k], fs[k]),
            forall|k: int| 0 <= k < j ==> is_file_node(#[trigger] nodes@[nf + k], files@[k]),
        decreases files.len() - j,
    {
        let f = &files[j];
        nodes.push(GraphNode {
            id: f.path.clone(),
            name: f.name.clone(),
            node_type: String::from_str("file"),
            size: f.size,
            lines: f.lines,
            language: f.language.clone(),
        });
        assert(nodes@[nf + j] == nodes@.last());
        j = j + 1;
    }
    let links = build_links(files, go_module);
    GraphData { nodes, links }
}

proof fn lemma_dedup<A>(s: Seq<A>)
    ensures
        dedup(s).no_duplicates(),
        forall|x: A| dedup(s).contains(x) <==> s.contains(x),
    decreases s.len(),
{
    if s.len() > 0 {
        let p = s.drop_last();
        lemma_dedup(p);
        assert forall|x: A| s.contains(x) <==> p.contains(x) || x == s.last() by {
            if s.contains(x) {
                let i = choose|i: int| 0 <= i < s.len() && s[i] == x;
                if i < s.len() - 1 {
                    assert(p[i] == x);
                }
            }
            if p.contains(x) {
                let i = choose|i: int| 0 <= i < p.len() && p[i] == x;
                assert(s[i] == x);
            }
            if x == s.last() {
                assert(s[s.len() - 1] == x);
            }
        }
        let d = dedup(p);
        if !d.contains(s.last()) {
            let e = d.push(s.last());
            assert forall|x: A| e.contains(x) <==> d.contains(x) || x == s.last() by {
                if e.contains(x) {
                    let i = choose|i: int| 0 <= i < e.len() && e[i] == x;
                    if i < d.len() {
                        assert(d[i] == x);
                    }
                }
                if d.contains(x) {
                    let i = choose|i: int| 0 <= i < d.len() && d[i] == x;
                    assert(e[i] == x);
                }
                if x == s.last() {
                    assert(e[d.len() as int] == x);
                }
            }
            assert forall|i: int, j: int| 0 <= i < e.len() && 0 <= j < e.len() && i != j implies e[i] != e[j] by {
                if i < d.len() && j < d.len() {
                    assert(e[i] == d[i] && e[j] == d[j]);
                } else if i < d.len() {
                    assert(e[i] == d[i]);
                } else {
                    assert(e[j] == d[j]);
                }
            }
        }
    }
}

proof fn lemma_first_existing_in(base: Seq<char>, suffixes: Seq<Seq<char>>, files: Seq<Seq<char>>)
    ensures
        first_existing(base, suffixes, files) matches Some(c) ==> files.contains(c),
    decreases suffixes.len(),
{
    if suffixes.len() > 0 {
        lemma_first_existing_in(base, suffixes.drop_first(), files);
    }
}

proof fn lemma_first_ending_in(files: Seq<Seq<char>>, name: Seq<char>)
    ensures
        first_ending_with(files, name) matches Some(c) ==> files.contains(c),
    decreases files.len(),
{
    if files.len() > 0 && !finishes_with(files[0], name) {
        lemma_first_ending_in(files.drop_first(), name);
        if let Some(c) = first_ending_with(files.drop_first(), name) {
            let i = choose|i: int| 0 <= i < files.drop_first().len() && files.drop_first()[i] == c;
            assert(files[i + 1] == c);
        }
    } else if files.len() > 0 {
        assert(files[0] == files[0]);
    }
}

proof fn lemma_go_files_in(files: Seq<Seq<char>>, rel: Seq<char>, t: Seq<char>)
    ensures
        go_package_files(files, rel).contains(t) ==> files.contains(t),
    decreases files.len(),
{
    if files.len() > 0 {
        let p = files.drop_last();
        lemma_go_files_in(p, rel, t);
        let r = go_package_files(p, rel);
        if go_package_files(files, rel).contains(t) {
            if r.contains(t) {
                let i = choose|i: int| 0 <= i < p.len() && p[i] == t;
                assert(files[i] == t);
            } else {
                let g = go_package_files(files, rel);
                let i = choose|i: int| 0 <= i < g.len() && g[i] == t;
                if i < r.len() {
                    assert(g[i] == r[i]);
                }
                assert(files[files.len() - 1] == t);
            }
        }
    }
}

proof fn lemma_targets_in(
    lang: Option<Language>,
    f_dir: Seq<char>,
    imp: Seq<char>,
    files: Seq<Seq<char>>,
    go_module: Option<Seq<char>>,
    t: Seq<char>,
)
    ensures
        import_targets(lang, f_dir, imp, files, go_module).contains(t) ==> files.contains(t),
{
    let ts = import_targets(lang, f_dir, imp, files, go_module);
    if ts.contains(t) {
        let i = choose|i: int| 0 <= i < ts.len() && ts[i] == t;
        match lang {
            Some(Language::JavaScript) | Some(Language::TypeScript) => {
                lemma_first_existing_in(forward_slashes(join_path(f_dir, imp)), source_suffixes(), files);
            },
            Some(Language::Python) => {
                let rel = if begins_with(imp, "."@) {
                    python_import_path(f_dir, imp)
                } else {
                    dots_to_slashes(imp)
                };
                lemma_first_existing_in(rel, python_suffixes(), files);
            },
            Some(Language::Go) => {
                if let Some(m) = go_module {
                    lemma_go_files_in(files, trim_leading_slashes(imp.skip(m.len() as int)), t);
                }
            },
            Some(Language::Rust) => {
                lemma_first_existing_in(forward_slashes(join_path(f_dir, imp)), source_suffixes(), files);
                lemma_first_existing_in(forward_slashes(join_path(f_dir, imp + "/mod"@)), source_suffixes(), files);
            },
            Some(Language::Cpp) | Some(Language::Header) => {
                if let Some(n) = file_name_of(imp) {
                    lemma_first_ending_in(files, n);
                }
            },
            _ => {},
        }
    }
}

proof fn lemma_import_links_in(
    f: FileInfo,
    imps: Seq<Seq<char>>,
    files: Seq<Seq<char>>,
    go_module: Option<Seq<char>>,
    l: (Seq<char>, Seq<char>),
)
    ensures
        import_links(f, imps, files, go_module).contains(l) ==> l.0 == f.path@ && files.contains(l.1),
    decreases imps.len(),
{
    if imps.len() > 0 {
        let pre = import_links(f, imps.drop_last(), files, go_module);
        let ts = import_targets(language_named(f.language@), dir_of(f.path@), imps.last(), files, go_module);
        let add = paired(f.path@, ts);
        lemma_import_links_in(f, imps.drop_last(), files, go_module, l);
        if (pre + add).contains(l) {
            let i = choose|i: int| 0 <= i < (pre + add).len() && (pre + add)[i] == l;
            if i < pre.len() {
                assert(pre[i] == l);
            } else {
                assert(add[i - pre.len()] == l);
                assert(ts[i - pre.len()] == l.1);
                lemma_targets_in(language_named(f.language@), dir_of(f.path@), imps.last(), files, go_module, l.1);
            }
        }
    }
}

proof fn lemma_link_pairs_in(fs: Seq<FileInfo>, files: Seq<Seq<char>>, go_module: Option<Seq<char>>, l: (Seq<char>, Seq<char>))
    ensures
        link_pairs(fs, files, go_module).contains(l) ==> file_paths(fs).contains(l.0) && files.contains(l.1),
    decreases fs.len(),
{
    if fs.len() > 0 {
        let p = fs.drop_last();
        let pre = link_pairs(p, files, go_module);
        let add = import_links(fs.last(), string_views(fs.last().imports@), files, go_module);
        lemma_link_pairs_in(p, files, go_module, l);
        lemma_import_links_in(fs.last(), string_views(fs.last().imports@), files, go_module, l);
        if (pre + add).contains(l) {
            let i = choose|i: int| 0 <= i < (pre + add).len() && (pre + add)[i] == l;
            if i < pre.len() {
                assert(pre[i] == l);
                let k = choose|k: int| 0 <= k < file_paths(p).len() && file_paths(p)[k] == l.0;
                assert(file_paths(fs)[k] == l.0);
            } else {
                assert(add[i - pre.len()] == l);
                assert(file_paths(fs)[fs.len() - 1] == l.0);
            }
        }
    }
}

/// No link of the graph appears twice, and every link joins two scanned files.
pub proof fn law_graph_links(fs: Seq<FileInfo>, go_module: Option<Seq<char>>, l: (Seq<char>, Seq<char>))
    ensures
        graph_links(fs, go_module).no_duplicates(),
        graph_links(fs, go_module).contains(l) ==> file_paths(fs).contains(l.0) && file_paths(fs).contains(l.1),
{
    lemma_dedup(link_pairs(fs, file_paths(fs), go_module));
    lemma_link_pairs_in(fs, file_paths(fs), go_module, l);
}

/// No directory of the graph appears twice, and each lies above a scanned file.
pub proof fn law_graph_folders(fs: Seq<FileInfo>, dir: Seq<char>)
    ensures
        graph_folders(fs).no_duplicates(),
        graph_folders(fs).contains(dir) ==> exists|i: int| 0 <= i < fs.len() && #[trigger] ancestors(fs[i].path@).contains(dir),
{
    lemma_dedup(all_ancestors(fs));
    lemma_all_ancestors(fs, dir);
}

proof fn lemma_all_ancestors(fs: Seq<FileInfo>, dir: Seq<char>)
    ensures
        all_ancestors(fs).contains(dir) ==> exists|i: int| 0 <= i < fs.len() && #[trigger] ancestors(fs[i].path@).contains(dir),
    decreases fs.len(),
{
    if fs.len() > 0 {
        let p = fs.drop_last();
        let pre = all_ancestors(p);
        let add = ancestors(fs.last().path@);
        lemma_all_ancestors(p, dir);
        if (pre + add).contains(dir) {
            let k = choose|k: int| 0 <= k < (pre + add).len() && (pre + add)[k] == dir;
            if k < pre.len() {
                assert(pre[k] == dir);
                let i = choose|i: int| 0 <= i < p.len() && #[trigger] ancestors(p[i].path@).contains(dir);
                assert(fs[i] == p[i]);
            } else {
                assert(add[k - pre.len()] == dir);
                assert(ancestors(fs[fs.len() - 1].path@).contains(dir));
            }
        }
    }
}

/// A path is skipped exactly when, with forward slashes, it holds one of
/// `/.git/`, `/node_modules/`, `/target/`, `/build/`, `/dist/`, `/wailsjs/`,
/// `/.wails/`, `/.vscode/` or `/.idea/`.
pub proof fn law_ignored_markers(p: Seq<char>)
    ensures
        is_ignored(p) <==> {
            ||| contains_run(forward_slashes(p), "/.git/"@)
            ||| contains_run(forward_slashes(p), "/node_modules/"@)
            ||| contains_run(forward_slashes(p), "/target/"@)
            ||| contains_run(forward_slashes(p), "/build/"@)
            ||| contains_run(forward_slashes(p), "/dist/"@)
            ||| contains_run(forward_slashes(p), "/wailsjs/"@)
            ||| contains_run(forward_slashes(p), "/.wails/"@)
            ||| contains_run(forward_slashes(p), "/.vscode/"@)
            ||| contains_run(forward_slashes(p), "/.idea/"@)
        },
{
    let fs = forward_slashes(p);
    let ms = ignored_markers();
    if is_ignored(p) {
        let k = choose|k: int| 0 <= k < ms.len() && contains_run(fs, #[trigger] ms[k]);
    }
    if contains_run(fs, "/.git/"@) {
        assert(ms[0] == "/.git/"@);
    }
    if contains_run(fs, "/node_modules/"@) {
        assert(ms[1] == "/node_modules/"@);
    }
    if contains_run(fs, "/target/"@) {
        assert(ms[2] == "/target/"@);
    }
    if contains_run(fs, "/build/"@) {
        assert(ms[3] == "/build/"@);
    }
    if contains_run(fs, "/dist/"@) {
        assert(ms[4] == "/dist/"@);
    }
    if contains_run(fs, "/wailsjs/"@) {
        assert(ms[5] == "/wailsjs/"@);
    }
    if contains_run(fs, "/.wails/"@) {
        assert(ms[6] == "/.wails/"@);
    }
    if contains_run(fs, "/.vscode/"@) {
        assert(ms[7] == "/.vscode/"@);
    }
    if contains_run(fs, "/.idea/"@) {
        assert(ms[8] == "/.idea/"@);
    }
}

/// Backslashes become slashes piece by piece.
proof fn lemma_forward_slashes_concat(a: Seq<char>, b: Seq<char>)
    ensures
        forward_slashes(a + b) == forward_slashes(a) + forward_slashes(b),
{
    assert(forward_slashes(a + b) =~= forward_slashes(a) + forward_slashes(b));
}

/// A name between two separators shows, with forward slashes, as the name
/// between two slashes.
proof fn lemma_separated_run(a: Seq<char>, s1: char, name: Seq<char>, s2: char, b: Seq<char>)
    requires
        s1 == '/' || s1 == '\\',
        s2 == '/' || s2 == '\\',
        forall|i: int| 0 <= i < name.len() ==> name[i] != '\\',
    ensures
        contains_run(forward_slashes(a + seq![s1] + name + seq![s2] + b), seq!['/'] + name + seq!['/']),
{
    let p = a + seq![s1] + name + seq![s2] + b;
    let m = seq!['/'] + name + seq!['/'];
    let ms = seq![s1] + name + seq![s2];
    assert(p =~= a + ms + b);
    lemma_forward_slashes_concat(a + ms, b);
    lemma_forward_slashes_concat(a, ms);
    assert(forward_slashes(ms) =~= m);
    let fs = forward_slashes(p);
    let i = forward_slashes(a).len() as int;
    assert(fs.subrange(i, i + m.len() as int) =~= m);
}

/// A file inside a build or tool directory is skipped, wherever that
/// directory lies: a path with a component `.git`, `node_modules`, `target`,
/// `build`, `dist`, `wailsjs`, `.wails`, `.vscode` or `.idea` between two
/// separators, each a slash or a backslash.
pub proof fn law_ignored_directory(a: Seq<char>, s1: char, name: Seq<char>, s2: char, b: Seq<char>)
    requires
        s1 == '/' || s1 == '\\',
        s2 == '/' || s2 == '\\',
        name == ".git"@ || name == "node_modules"@ || name == "target"@ || name == "build"@
            || name == "dist"@ || name == "wailsjs"@ || name == ".wails"@ || name == ".vscode"@
            || name == ".idea"@,
    ensures
        is_ignored(a + seq![s1] + name + seq![s2] + b),
{
    if name == ".git"@ {
        reveal_strlit(".git");
        reveal_strlit("/.git/");
        assert(forall|i: int| 0 <= i < name.len() ==> name[i] != '\\');
        lemma_separated_run(a, s1, name, s2, b);
        assert(seq!['/'] + name + seq!['/'] =~= "/.git/"@);
    }
    if name == "node_modules"@ {
        reveal_strlit("node_modules");
        reveal_strlit("/node_modules/");
        assert(forall|i: int| 0 <= i < name.len() ==> name[i] != '\\');
        lemma_separated_run(a, s1, name, s2, b);
        assert(seq!['/'] + name + seq!['/'] =~= "/node_modules/"@);
    }
    if name == "target"@ {
        reveal_strlit("target");
        reveal_strlit("/target/");
        assert(forall|i: int| 0 <= i < name.len() ==> name[i] != '\\');
        lemma_separated_run(a, s1, name, s2, b);
        assert(seq!['/'] + name + seq!['/'] =~= "/target/"@);
    }
    if name == "build"@ {
        reveal_strlit("build");
        reveal_strlit("/build/");
        assert(forall|i: int| 0 <= i < name.len() ==> name[i] != '\\');
        lemma_separated_run(a, s1, name, s2, b);
        assert(seq!['/'] + name + seq!['/'] =~= "/build/"@);
    }
    if name == "dist"@ {
        reveal_strlit("dist");
        reveal_strlit("/dist/");
        assert(forall|i: int| 0 <= i < name.len() ==> name[i] != '\\');
        lemma_separated_run(a, s1, name, s2, b);
        assert(seq!['/'] + name + seq!['/'] =~= "/dist/"@);
    }
    if name == "wailsjs"@ {
        reveal_strlit("wailsjs");
        reveal_strlit("/wailsjs/");
        assert(forall|i: int| 0 <= i < name.len() ==> name[i] != '\\');
        lemma_separated_run(a, s1, name, s2, b);
        assert(seq!['/'] + name + seq!['/'] =~= "/wailsjs/"@);
    }
    if name == ".wails"@ {
        reveal_strlit(".wails");
        reveal_strlit("/.wails/");
        assert(forall|i: int| 0 <= i < name.len() ==> name[i] != '\\');
        lemma_separated_run(a, s1, name, s2, b);
        assert(seq!['/'] + name + seq!['/'] =~= "/.wails/"@);
    }
    if name == ".vscode"@ {
        reveal_strlit(".vscode");
        reveal_strlit("/.vscode/");
        assert(forall|i: int| 0 <= i < name.len() ==> name[i] != '\\');
        lemma_separated_run(a, s1, name, s2, b);
        assert(seq!['/'] + name + seq!['/'] =~= "/.vscode/"@);
    }
    if name == ".idea"@ {
        reveal_strlit(".idea");
        reveal_strlit("/.idea/");
        assert(forall|i: int| 0 <= i < name.len() ==> name[i] != '\\');
        lemma_separated_run(a, s1, name, s2, b);
        assert(seq!['/'] + name + seq!['/'] =~= "/.idea/"@);
    }
    law_ignored_markers(a + seq![s1] + name + seq![s2] + b);
}

/// The candidate that `base` followed by the suffix `suf` names.
pub open spec fn candidate(base: Seq<char>, suf: Seq<char>) -> Seq<char> {
    trim_dot_slash(base + suf)
}

/// `first_existing` finds the earliest candidate that `files` holds, and
/// finds nothing only when `files` holds no candidate.
proof fn lemma_first_existing(base: Seq<char>, sufs: Seq<Seq<char>>, files: Seq<Seq<char>>)
    ensures
        match first_existing(base, sufs, files) {
            Some(c) => files.contains(c) && exists|k: int|
                0 <= k < sufs.len() && c == candidate(base, sufs[k]) && forall|j: int|
                    0 <= j < k ==> !files.contains(#[trigger] candidate(base, sufs[j])),
            None => forall|k: int| 0 <= k < sufs.len() ==> !files.contains(#[trigger] candidate(base, sufs[k])),
        },
    decreases sufs.len(),
{
    if sufs.len() > 0 {
        let rest = sufs.drop_first();
        lemma_first_existing(base, rest, files);
        if files.contains(candidate(base, sufs[0])) {
            assert(forall|j: int| 0 <= j < 0 ==> !files.contains(#[trigger] candidate(base, sufs[j])));
        } else {
            match first_existing(base, rest, files) {
                Some(c) => {
                    let k = choose|k: int|
                        0 <= k < rest.len() && c == candidate(base, rest[k]) && forall|j: int|
                            0 <= j < k ==> !files.contains(#[trigger] candidate(base, rest[j]));
                    assert(sufs[k + 1] == rest[k]);
                    assert forall|j: int| 0 <= j < k + 1 implies !files.contains(#[trigger] candidate(base, sufs[j])) by {
                        if j > 0 {
                            assert(sufs[j] == rest[j - 1]);
                        }
                    }
                },
                None => {
                    assert forall|k: int| 0 <= k < sufs.len() implies !files.contains(#[trigger] candidate(base, sufs[k])) by {
                        if k > 0 {
                            assert(sufs[k] == rest[k - 1]);
                        }
                    }
                },
            }
        }
    }
}

/// The imports of JavaScript and TypeScript files resolve alike. A relative
/// import (one that begins with `.`) names one file: joined to the
/// importing file's directory, it is followed by each source suffix in
/// turn, and the first candidate that is a scanned file is taken; with no
/// such candidate, and for an import that is not relative, no file. The
/// suffixes tried are none, `.ts`, `.tsx`, `.js`, `.jsx`, `.d.ts`, `.rs`,
/// `.go`, `.py`, `.cpp`, `.cc`, `.c`, `.h`, `.hpp`, `.java`, `.cs`,
/// `/index.ts`, `/index.tsx` and `/index.js`.
pub proof fn law_script_imports(
    d: Seq<char>,
    imp: Seq<char>,
    files: Seq<Seq<char>>,
    go_module: Option<Seq<char>>,
    k: int,
)
    ensures
        import_targets(Some(Language::JavaScript), d, imp, files, go_module) == import_targets(
            Some(Language::TypeScript),
            d,
            imp,
            files,
            go_module,
        ),
        ({
            let r = import_targets(Some(Language::JavaScript), d, imp, files, go_module);
            let base = forward_slashes(join_path(d, imp));
            &&& r.len() <= 1
            &&& !begins_with(imp, "."@) ==> r.len() == 0
            &&& r.len() == 1 ==> files.contains(r[0]) && exists|i: int|
                0 <= i < source_suffixes().len() && r[0] == candidate(base, source_suffixes()[i])
                    && forall|j: int| 0 <= j < i ==> !files.contains(#[trigger] candidate(base, source_suffixes()[j]))
            &&& begins_with(imp, "."@) && 0 <= k < source_suffixes().len() && files.contains(
                candidate(base, source_suffixes()[k]),
            ) ==> r.len() == 1
            &&& begins_with(imp, "."@) && files.contains(candidate(base, ""@)) ==> r.len() == 1
            &&& begins_with(imp, "."@) && files.contains(candidate(base, ".ts"@)) ==> r.len() == 1
            &&& begins_with(imp, "."@) && files.contains(candidate(base, ".tsx"@)) ==> r.len() == 1
            &&& begins_with(imp, "."@) && files.contains(candidate(base, ".js"@)) ==> r.len() == 1
            &&& begins_with(imp, "."@) && files.contains(candidate(base, ".jsx"@)) ==> r.len() == 1
            &&& begins_with(imp, "."@) && files.contains(candidate(base, ".d.ts"@)) ==> r.len() == 1
            &&& begins_with(imp, "."@) && files.contains(candidate(base, ".rs"@)) ==> r.len() == 1
            &&& begins_with(imp, "."@) && files.contains(candidate(base, ".go"@)) ==> r.len() == 1
            &&& begins_with(imp, "."@) && files.contains(candidate(base, ".py"@)) ==> r.len() == 1
            &&& begins_with(imp, "."@) && files.contains(candidate(base, ".cpp"@)) ==> r.len() == 1
            &&& begins_with(imp, "."@) && files.contains(candidate(base, ".cc"@)) ==> r.len() == 1
            &&& begins_with(imp, "."@) && files.contains(candidate(base, ".c"@)) ==> r.len() == 1
            &&& begins_with(imp, "."@) && files.contains(candidate(base, ".h"@)) ==> r.len() == 1
            &&& begins_with(imp, "."@) && files.contains(candidate(base, ".hpp"@)) ==> r.len() == 1
            &&& begins_with(imp, "."@) && files.contains(candidate(base, ".java"@)) ==> r.len() == 1
            &&& begins_with(imp, "."@) && files.contains(candidate(base, ".cs"@)) ==> r.len() == 1
            &&& begins_with(imp, "."@) && files.contains(candidate(base, "/index.ts"@)) ==> r.len() == 1
            &&& begins_with(imp, "."@) && files.contains(candidate(base, "/index.tsx"@)) ==> r.len() == 1
            &&& begins_with(imp, "."@) && files.contains(candidate(base, "/index.js"@)) ==> r.len() == 1
        }),
{
    let base = forward_slashes(join_path(d, imp));
    lemma_first_existing(base, source_suffixes(), files);
    assert(source_suffixes()[0] == ""@);
    assert(source_suffixes()[1] == ".ts"@);
    assert(source_suffixes()[2] == ".tsx"@);
    assert(source_suffixes()[3] == ".js"@);
    assert(source_suffixes()[4] == ".jsx"@);
    assert(source_suffixes()[5] == ".d.ts"@);
    assert(source_suffixes()[6] == ".rs"@);
    assert(source_suffixes()[7] == ".go"@);
    assert(source_suffixes()[8] == ".py"@);
    assert(source_suffixes()[9] == ".cpp"@);
    assert(source_suffixes()[10] == ".cc"@);
    assert(source_suffixes()[11] == ".c"@);
    assert(source_suffixes()[12] == ".h"@);
    assert(source_suffixes()[13] == ".hpp"@);
    assert(source_suffixes()[14] == ".java"@);
    assert(source_suffixes()[15] == ".cs"@);
    assert(source_suffixes()[16] == "/index.ts"@);
    assert(source_suffixes()[17] == "/index.tsx"@);
    assert(source_suffixes()[18] == "/index.js"@);
}

proof fn lemma_import_links_has(
    f: FileInfo,
    imps: Seq<Seq<char>>,
    files: Seq<Seq<char>>,
    go_module: Option<Seq<char>>,
    j: int,
    t: Seq<char>,
)
    requires
        0 <= j < imps.len(),
        import_targets(language_named(f.language@), dir_of(f.path@), imps[j], files, go_module).contains(t),
    ensures
        import_links(f, imps, files, go_module).contains((f.path@, t)),
    decreases imps.len(),
{
    let pre = import_links(f, imps.drop_last(), files, go_module);
    let ts = import_targets(language_named(f.language@), dir_of(f.path@), imps.last(), files, go_module);
    let add = paired(f.path@, ts);
    assert(import_links(f, imps, files, go_module) == pre + add);
    if j < imps.len() - 1 {
        assert(imps.drop_last()[j] == imps[j]);
        lemma_import_links_has(f, imps.drop_last(), files, go_module, j, t);
        let k = choose|k: int| 0 <= k < pre.len() && pre[k] == (f.path@, t);
        assert((pre + add)[k] == (f.path@, t));
    } else {
        let k = choose|k: int| 0 <= k < ts.len() && ts[k] == t;
        assert(add[k] == (f.path@, t));
        assert((pre + add)[pre.len() + k] == (f.path@, t));
    }
}

proof fn lemma_link_pairs_has(
    fs: Seq<FileInfo>,
    files: Seq<Seq<char>>,
    go_module: Option<Seq<char>>,
    i: int,
    x: (Seq<char>, Seq<char>),
)
    requires
        0 <= i < fs.len(),
        import_links(fs[i], string_views(fs[i].imports@), files, go_module).contains(x),
    ensures
        link_pairs(fs, files, go_module).contains(x),
    decreases fs.len(),
{
    let pre = link_pairs(fs.drop_last(), files, go_module);
    let add = import_links(fs.last(), string_views(fs.last().imports@), files, go_module);
    if i < fs.len() - 1 {
        assert(fs.drop_last()[i] == fs[i]);
        lemma_link_pairs_has(fs.drop_last(), files, go_module, i, x);
        let k = choose|k: int| 0 <= k < pre.len() && pre[k] == x;
        assert((pre + add)[k] == x);
    } else {
        let k = choose|k: int| 0 <= k < add.len() && add[k] == x;
        assert((pre + add)[pre.len() + k] == x);
    }
}

/// Every import that resolves gives a link: for each scanned file, each of
/// its imports and each scanned file that the import resolves to (for the
/// file's language, from the file's directory), the graph links the file
/// to that file.
pub proof fn law_import_gives_link(fs: Seq<FileInfo>, go_module: Option<Seq<char>>, i: int, j: int, t: Seq<char>)
    requires
        0 <= i < fs.len(),
        0 <= j < fs[i].imports@.len(),
        import_targets(
            language_named(fs[i].language@),
            dir_of(fs[i].path@),
            fs[i].imports@[j]@,
            file_paths(fs),
            go_module,
        ).contains(t),
    ensures
        graph_links(fs, go_module).contains((fs[i].path@, t)),
{
    let imps = string_views(fs[i].imports@);
    assert(imps[j] == fs[i].imports@[j]@);
    lemma_import_links_has(fs[i], imps, file_paths(fs), go_module, j, t);
    lemma_link_pairs_has(fs, file_paths(fs), go_module, i, (fs[i].path@, t));
    lemma_dedup(link_pairs(fs, file_paths(fs), go_module));
}

/// A Python import names the module file, else the package: the import's
/// path (a relative import resolved from the importing file's directory, an
/// absolute one with its dots as slashes) followed by `.py` if that is a
/// scanned file, else followed by `/__init__.py` if that is; else no file.
pub proof fn law_python_imports(d: Seq<char>, imp: Seq<char>, files: Seq<Seq<char>>, go_module: Option<Seq<char>>)
    ensures
        ({
            let r = import_targets(Some(Language::Python), d, imp, files, go_module);
            let rel = if begins_with(imp, "."@) {
                python_import_path(d, imp)
            } else {
                dots_to_slashes(imp)
            };
            let c1 = candidate(rel, ".py"@);
            let c2 = candidate(rel, "/__init__.py"@);
            &&& files.contains(c1) ==> r == seq![c1]
            &&& !files.contains(c1) && files.contains(c2) ==> r == seq![c2]
            &&& !files.contains(c1) && !files.contains(c2) ==> r.len() == 0
        }),
{
    let rel = if begins_with(imp, "."@) {
        python_import_path(d, imp)
    } else {
        dots_to_slashes(imp)
    };
    let sufs = python_suffixes();
    assert(sufs[0] == ".py"@);
    assert(sufs.drop_first()[0] == "/__init__.py"@);
    assert(sufs.drop_first().drop_first() =~= Seq::<Seq<char>>::empty());
    assert(first_existing(rel, sufs.drop_first().drop_first(), files) is None);
    assert(first_existing(rel, sufs.drop_first(), files) == if files.contains(candidate(rel, "/__init__.py"@)) {
        Some(candidate(rel, "/__init__.py"@))
    } else {
        None
    });
}

/// The first of `files` that ends with `name` is a file that does, and
/// there is none only when no file does.
proof fn lemma_first_ending_with(files: Seq<Seq<char>>, name: Seq<char>)
    ensures
        match first_ending_with(files, name) {
            Some(c) => files.contains(c) && finishes_with(c, name) && exists|k: int|
                0 <= k < files.len() && files[k] == c && forall|j: int|
                    0 <= j < k ==> !finishes_with(#[trigger] files[j], name),
            None => forall|k: int| 0 <= k < files.len() ==> !finishes_with(#[trigger] files[k], name),
        },
    decreases files.len(),
{
    if files.len() > 0 {
        let rest = files.drop_first();
        lemma_first_ending_with(rest, name);
        if finishes_with(files[0], name) {
            assert(files[0] == files[0]);
        } else {
            match first_ending_with(rest, name) {
                Some(c) => {
                    let k = choose|k: int|
                        0 <= k < rest.len() && rest[k] == c && forall|j: int|
                            0 <= j < k ==> !finishes_with(#[trigger] rest[j], name);
                    assert(files[k + 1] == c);
                    assert forall|j: int| 0 <= j < k + 1 implies !finishes_with(#[trigger] files[j], name) by {
                        if j > 0 {
                            assert(files[j] == rest[j - 1]);
                        }
                    }
                },
                None => {
                    assert forall|k: int| 0 <= k < files.len() implies !finishes_with(#[trigger] files[k], name) by {
                        if k > 0 {
                            assert(files[k] == rest[k - 1]);
                        }
                    }
                },
            }
        }
    }
}

/// Header files resolve their includes like C and C++ files. An include
/// names the file it gives joined to the importing file's directory when
/// that is a scanned file; else the first scanned file whose path ends with
/// the include's file name, if any; else no file.
pub proof fn law_include_targets(d: Seq<char>, imp: Seq<char>, files: Seq<Seq<char>>, go_module: Option<Seq<char>>)
    ensures
        import_targets(Some(Language::Header), d, imp, files, go_module) == import_targets(
            Some(Language::Cpp),
            d,
            imp,
            files,
            go_module,
        ),
        ({
            let r = import_targets(Some(Language::Cpp), d, imp, files, go_module);
            let resolved = forward_slashes(join_path(d, imp));
            &&& files.contains(resolved) ==> r == seq![resolved]
            &&& r.len() <= 1
            &&& r.len() == 1 ==> files.contains(r[0])
            &&& !files.contains(resolved) && r.len() == 1 ==> (file_name_of(imp) matches Some(n) && finishes_with(r[0], n)
                && exists|k: int| 0 <= k < files.len() && files[k] == r[0] && forall|j: int|
                    0 <= j < k ==> !finishes_with(#[trigger] files[j], n))
            &&& !files.contains(resolved) ==> (file_name_of(imp) matches Some(n) ==> ((exists|k: int|
                0 <= k < files.len() && finishes_with(#[trigger] files[k], n)) ==> r.len() == 1))
        }),
{
    match file_name_of(imp) {
        Some(n) => lemma_first_ending_with(files, n),
        None => {},
    }
}

proof fn lemma_push_contains<A>(s: Seq<A>, x: A, c: A)
    ensures
        s.push(x).contains(c) <==> s.contains(c) || x == c,
{
    if s.push(x).contains(c) {
        let k = choose|k: int| 0 <= k < s.push(x).len() && s.push(x)[k] == c;
        if k < s.len() {
            assert(s[k] == c);
        }
    }
    if s.contains(c) {
        let k = choose|k: int| 0 <= k < s.len() && s[k] == c;
        assert(s.push(x)[k] == c);
    }
    if x == c {
        assert(s.push(x)[s.len() as int] == c);
    }
}

/// A file is among the Go files under `rel` exactly when it is a scanned Go
/// file whose path begins with `rel`.
proof fn lemma_go_package_files(files: Seq<Seq<char>>, rel: Seq<char>, c: Seq<char>)
    ensures
        go_package_files(files, rel).contains(c) <==> files.contains(c) && begins_with(c, rel) && finishes_with(
            c,
            ".go"@,
        ),
    decreases files.len(),
{
    if files.len() > 0 {
        let p = files.drop_last();
        let last = files.last();
        lemma_go_package_files(p, rel, c);
        assert(files =~= p.push(last));
        lemma_push_contains(p, last, c);
        lemma_push_contains(go_package_files(p, rel), last, c);
    }
}

/// A Go import under the declared module names every scanned Go file whose
/// path begins with the rest of the import (leading slashes dropped); an
/// import outside the module, or any import when no module is declared,
/// names no file.
pub proof fn law_go_imports(d: Seq<char>, imp: Seq<char>, files: Seq<Seq<char>>, m: Seq<char>, c: Seq<char>)
    ensures
        import_targets(Some(Language::Go), d, imp, files, None).len() == 0,
        !begins_with(imp, m) ==> import_targets(Some(Language::Go), d, imp, files, Some(m)).len() == 0,
        begins_with(imp, m) ==> (import_targets(Some(Language::Go), d, imp, files, Some(m)).contains(c) <==> files.contains(c)
            && begins_with(c, trim_leading_slashes(imp.skip(m.len() as int))) && finishes_with(c, ".go"@)),
{
    lemma_go_package_files(files, trim_leading_slashes(imp.skip(m.len() as int)), c);
}

/// A Rust module names one file: the module next to the importing file,
/// tried with each source suffix, the first that is a scanned file; else,
/// the same for the `mod` file in a directory of the module's name; else no
/// file.
pub proof fn law_rust_imports(d: Seq<char>, imp: Seq<char>, files: Seq<Seq<char>>, go_module: Option<Seq<char>>, k: int)
    ensures
        ({
            let r = import_targets(Some(Language::Rust), d, imp, files, go_module);
            let b1 = forward_slashes(join_path(d, imp));
            let b2 = forward_slashes(join_path(d, imp + "/mod"@));
            let sufs = source_suffixes();
            &&& r.len() <= 1
            &&& r.len() == 1 ==> files.contains(r[0])
            &&& 0 <= k < sufs.len() && files.contains(candidate(b1, sufs[k])) ==> r.len() == 1 && exists|i: int|
                0 <= i <= k && r[0] == candidate(b1, sufs[i]) && forall|j: int|
                    0 <= j < i ==> !files.contains(#[trigger] candidate(b1, sufs[j]))
            &&& (forall|i: int| 0 <= i < sufs.len() ==> !files.contains(#[trigger] candidate(b1, sufs[i]))) ==> (
                0 <= k < sufs.len() && files.contains(candidate(b2, sufs[k])) ==> r.len() == 1 && exists|i: int|
                    0 <= i <= k && r[0] == candidate(b2, sufs[i]) && forall|j: int|
                        0 <= j < i ==> !files.contains(#[trigger] candidate(b2, sufs[j])))
            &&& r.len() == 1 ==> exists|i: int| 0 <= i < sufs.len() && (r[0] == candidate(b1, sufs[i]) || r[0] == candidate(b2, sufs[i]))
        }),
{
    let b1 = forward_slashes(join_path(d, imp));
    let b2 = forward_slashes(join_path(d, imp + "/mod"@));
    lemma_first_existing(b1, source_suffixes(), files);
    lemma_first_existing(b2, source_suffixes(), files);
}

/// Java and C# imports, and the imports of a file whose language the scan
/// does not know, name no file.
pub proof fn law_unresolved_imports(d: Seq<char>, imp: Seq<char>, files: Seq<Seq<char>>, go_module: Option<Seq<char>>)
    ensures
        import_targets(Some(Language::Java), d, imp, files, go_module).len() == 0,
        import_targets(Some(Language::CSharp), d, imp, files, go_module).len() == 0,
        import_targets(None, d, imp, files, go_module).len() == 0,
{
}

/// The lengths and first characters of the language names and extensions,
/// which tell any two of them apart.
proof fn lemma_name_literals()
    ensures
        "c"@.len() == 1 && "c"@[0] == 'c',
        "cc"@.len() == 2 && "cc"@[0] == 'c' && "cc"@[1] == 'c',
        "cjs"@.len() == 3 && "cjs"@[0] == 'c' && "cjs"@[1] == 'j',
        "cpp"@.len() == 3 && "cpp"@[0] == 'c' && "cpp"@[1] == 'p',
        "cs"@.len() == 2 && "cs"@[0] == 'c' && "cs"@[1] == 's',
        "csharp"@.len() == 6 && "csharp"@[0] == 'c' && "csharp"@[1] == 's',
        "cts"@.len() == 3 && "cts"@[0] == 'c' && "cts"@[1] == 't',
        "cxx"@.len() == 3 && "cxx"@[0] == 'c' && "cxx"@[1] == 'x',
        "go"@.len() == 2 && "go"@[0] == 'g' && "go"@[1] == 'o',
        "h"@.len() == 1 && "h"@[0] == 'h',
        "header"@.len() == 6 && "header"@[0] == 'h' && "header"@[1] == 'e',
        "hpp"@.len() == 3 && "hpp"@[0] == 'h' && "hpp"@[1] == 'p',
        "java"@.len() == 4 && "java"@[0] == 'j' && "java"@[1] == 'a',
        "javascript"@.len() == 10 && "javascript"@[0] == 'j' && "javascript"@[1] == 'a',
        "js"@.len() == 2 && "js"@[0] == 'j' && "js"@[1] == 's',
        "jsx"@.len() == 3 && "jsx"@[0] == 'j' && "jsx"@[1] == 's',
        "mjs"@.len() == 3 && "mjs"@[0] == 'm' && "mjs"@[1] == 'j',
        "mts"@.len() == 3 && "mts"@[0] == 'm' && "mts"@[1] == 't',
        "py"@.len() == 2 && "py"@[0] == 'p' && "py"@[1] == 'y',
        "python"@.len() == 6 && "python"@[0] == 'p' && "python"@[1] == 'y',
        "rs"@.len() == 2 && "rs"@[0] == 'r' && "rs"@[1] == 's',
        "rust"@.len() == 4 && "rust"@[0] == 'r' && "rust"@[1] == 'u',
        "ts"@.len() == 2 && "ts"@[0] == 't' && "ts"@[1] == 's',
        "tsx"@.len() == 3 && "tsx"@[0] == 't' && "tsx"@[1] == 's',
        "typescript"@.len() == 10 && "typescript"@[0] == 't' && "typescript"@[1] == 'y',
{
    reveal_strlit("c");
    reveal_strlit("cc");
    reveal_strlit("cjs");
    reveal_strlit("cpp");
    reveal_strlit("cs");
    reveal_strlit("csharp");
    reveal_strlit("cts");
    reveal_strlit("cxx");
    reveal_strlit("go");
    reveal_strlit("h");
    reveal_strlit("header");
    reveal_strlit("hpp");
    reveal_strlit("java");
    reveal_strlit("javascript");
    reveal_strlit("js");
    reveal_strlit("jsx");
    reveal_strlit("mjs");
    reveal_strlit("mts");
    reveal_strlit("py");
    reveal_strlit("python");
    reveal_strlit("rs");
    reveal_strlit("rust");
    reveal_strlit("ts");
    reveal_strlit("tsx");
    reveal_strlit("typescript");
}

/// The graph reads back the language that a file record names: each
/// language's name names that language and no other, and only the nine
/// names name a language.
pub proof fn law_language_names(l: Language, name: Seq<char>)
    ensures
        language_named(language_name(l)) == Some(l),
        language_named(name) matches Some(k) ==> name == language_name(k),
        language_name(Language::Go) == "go"@,
        language_name(Language::Rust) == "rust"@,
        language_name(Language::JavaScript) == "javascript"@,
        language_name(Language::TypeScript) == "typescript"@,
        language_name(Language::Python) == "python"@,
        language_name(Language::Cpp) == "cpp"@,
        language_name(Language::Header) == "header"@,
        language_name(Language::Java) == "java"@,
        language_name(Language::CSharp) == "csharp"@,
{
    lemma_name_literals();
}

/// The language of a lowercase file extension: `go`; `rs`; `js`, `jsx`,
/// `mjs`, `cjs`; `ts`, `tsx`, `mts`, `cts`; `py`; `cpp`, `cc`, `cxx`, `c`;
/// `h`, `hpp` (headers); `java`; `cs`; any other extension has none.
pub proof fn law_extension_languages(ext: Seq<char>)
    ensures
        language_of_extension(ext) == Some(Language::Go) <==> (ext == "go"@),
        language_of_extension(ext) == Some(Language::Rust) <==> (ext == "rs"@),
        language_of_extension(ext) == Some(Language::JavaScript) <==> (ext == "js"@ || ext == "jsx"@ || ext == "mjs"@ || ext == "cjs"@),
        language_of_extension(ext) == Some(Language::TypeScript) <==> (ext == "ts"@ || ext == "tsx"@ || ext == "mts"@ || ext == "cts"@),
        language_of_extension(ext) == Some(Language::Python) <==> (ext == "py"@),
        language_of_extension(ext) == Some(Language::Cpp) <==> (ext == "cpp"@ || ext == "cc"@ || ext == "cxx"@ || ext == "c"@),
        language_of_extension(ext) == Some(Language::Header) <==> (ext == "h"@ || ext == "hpp"@),
        language_of_extension(ext) == Some(Language::Java) <==> (ext == "java"@),
        language_of_extension(ext) == Some(Language::CSharp) <==> (ext == "cs"@),
{
    lemma_name_literals();
}

} // verus!
