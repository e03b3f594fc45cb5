use synapse::code::graph::{build_graph, file_name, go_module_name, is_ignored_path, lines_of, GraphData};
use synapse::code::parser::{
    language_for_extension, split_import_list, statement_imports_from, FileInfo, Language, LineCaptures, Parser,
};
use synapse::code::paths::{
    find_existing_file, find_existing_py_file, parent, resolve_js_import, resolve_py_import,
};

fn lines(text: &str) -> Vec<String> {
    text.lines().map(|l| l.to_string()).collect()
}

fn file(path: &str, language: &str, imports: &[&str]) -> FileInfo {
    FileInfo {
        path: path.to_string(),
        name: path.rsplit('/').next().unwrap().to_string(),
        size: 10,
        lines: 2,
        language: language.to_string(),
        imports: imports.iter().map(|s| s.to_string()).collect(),
    }
}

#[test]
fn extensions_name_languages_case_insensitively() {
    assert_eq!(language_for_extension("RS"), Some(Language::Rust));
    assert_eq!(language_for_extension("tsx"), Some(Language::TypeScript));
    assert_eq!(language_for_extension("cjs"), Some(Language::JavaScript));
    assert_eq!(language_for_extension("hpp"), Some(Language::Header));
    assert_eq!(language_for_extension("cxx"), Some(Language::Cpp));
    assert_eq!(language_for_extension("cs"), Some(Language::CSharp));
    assert_eq!(language_for_extension("md"), None);
    assert_eq!(Language::CSharp.name(), "csharp");
}

#[test]
fn parser_scans_javascript_imports() {
    let p = Parser::new().unwrap();
    let src = lines(
        "import React from 'react';\n// import x from './commented'\nimport './styles.css';\nconst u = require(\"./util\");\nconst m = await import('./lazy');\n  \nlet y = 1;",
    );
    let f = p.parse_file("JSX", "src\\app.jsx", "app.jsx", 321, &src).unwrap();
    assert_eq!(f.path, "src/app.jsx");
    assert_eq!(f.name, "app.jsx");
    assert_eq!(f.size, 321);
    assert_eq!(f.lines, 7);
    assert_eq!(f.language, "javascript");
    assert_eq!(f.imports, vec!["react", "./styles.css", "./util", "./lazy"]);
    assert!(p.parse_file("txt", "a.txt", "a.txt", 1, &src).is_none());
}

#[test]
fn parser_scans_python_imports() {
    let p = Parser::new().unwrap();
    let src = lines("# import hidden\nfrom .models import User\nimport os, sys ,json\nfrom ..pkg.sub import x\nprint('hi')");
    let f = p.parse_file("py", "app/main.py", "main.py", 5, &src).unwrap();
    assert_eq!(f.language, "python");
    assert_eq!(f.imports, vec![".models", "os", "sys", "json", "..pkg.sub"]);
}

#[test]
fn parser_follows_go_import_blocks() {
    let p = Parser::new().unwrap();
    let src = lines(
        "package main\nimport \"fmt\"\nimport (\n    \"os\"\n    // \"skipped\"\n    db \"example.com/app/pkg/db\"\n)\nvar s = \"not an import\"",
    );
    let f = p.parse_file("go", "main.go", "main.go", 5, &src).unwrap();
    assert_eq!(f.imports, vec!["fmt", "os", "example.com/app/pkg/db"]);
}

#[test]
fn parser_scans_rust_cpp_java_and_csharp() {
    let p = Parser::new().unwrap();
    let rs = p.parse_file("rs", "src/main.rs", "main.rs", 1, &lines("mod parser;\nuse std::fmt;\nuse crate::x;\n/* mod hidden; */")).unwrap();
    assert_eq!(rs.imports, vec!["parser", "std", "crate"]);
    let cpp = p.parse_file("cc", "a.cc", "a.cc", 1, &lines("#include \"util/math.h\"\n#include <vector>\n")).unwrap();
    assert_eq!(cpp.imports, vec!["util/math.h"]);
    let java = p.parse_file("java", "A.java", "A.java", 1, &lines("import java.util.List;\nimport static x;")).unwrap();
    assert_eq!(java.imports, vec!["java.util.List"]);
    let cs = p.parse_file("cs", "P.cs", "P.cs", 1, &lines("using System.Text;\nusing (var x = y)")).unwrap();
    assert_eq!(cs.imports, vec!["System.Text"]);
}

#[test]
fn import_lists_split_at_commas() {
    assert_eq!(split_import_list("os, sys ,json"), vec!["os", "sys", "json"]);
    assert_eq!(split_import_list("a,,b,"), vec!["a", "", "b", ""]);
    assert_eq!(split_import_list(""), vec![""]);
}

#[test]
fn text_lines_follow_str_lines() {
    assert_eq!(lines_of("a\r\nb\n\nc"), vec!["a", "b", "", "c"]);
    assert_eq!(lines_of("a\n"), vec!["a"]);
    assert!(lines_of("").is_empty());
    assert_eq!(lines_of("x\r"), vec!["x\r"]);
}

#[test]
fn go_mod_declares_the_module_path() {
    assert_eq!(go_module_name("// go.mod\nmodule   example.com/app  \n\ngo 1.21\n"), Some("example.com/app".to_string()));
    assert_eq!(go_module_name("go 1.21\n"), None);
    assert_eq!(go_module_name("modulex\n"), None);
}

#[test]
fn build_and_tool_directories_are_skipped() {
    assert!(is_ignored_path("/repo/node_modules/x/index.js"));
    assert!(is_ignored_path("C:\\repo\\target\\debug\\a.rs"));
    assert!(is_ignored_path("/repo/.git/HEAD"));
    assert!(!is_ignored_path("/repo/src/target.rs"));
    assert!(!is_ignored_path("target/a.rs"));
}

#[test]
fn file_names_and_parents_follow_path_rules() {
    assert_eq!(file_name("a/b/c.h"), Some("c.h".to_string()));
    assert_eq!(file_name("a/b/"), Some("b".to_string()));
    assert_eq!(file_name("a/.."), None);
    assert_eq!(file_name("./"), None);
    assert_eq!(file_name(""), None);
    assert_eq!(parent("a/b/c.rs"), Some("a/b".to_string()));
    assert_eq!(parent("c.rs"), Some(String::new()));
    assert_eq!(parent(""), None);
    assert_eq!(parent("/a"), Some("/".to_string()));
}

#[test]
fn imports_resolve_to_files_of_the_tree() {
    let files: Vec<String> = vec![
        "src/utils.ts".to_string(),
        "src/lib/index.js".to_string(),
        "app/models.py".to_string(),
        "app/pkg/__init__.py".to_string(),
    ];
    assert_eq!(resolve_js_import("src", "./utils"), "src/./utils");
    assert_eq!(find_existing_file("src/./utils", &files), None);
    assert_eq!(find_existing_file("./src/utils", &files), Some("src/utils.ts".to_string()));
    assert_eq!(find_existing_file("src/lib", &files), Some("src/lib/index.js".to_string()));
    assert_eq!(resolve_py_import("app/sub", "..models"), "app/models");
    assert_eq!(resolve_py_import("app", ".pkg"), "app/pkg");
    assert_eq!(find_existing_py_file("app/models", &files), Some("app/models.py".to_string()));
    assert_eq!(find_existing_py_file("app/pkg", &files), Some("app/pkg/__init__.py".to_string()));
    assert_eq!(find_existing_py_file("app/none", &files), None);
}

#[test]
fn graph_links_and_nodes() {
    let files = vec![
        file("main.ts", "typescript", &["./web/util", "react", "./web/util"]),
        file("web/util.ts", "typescript", &[]),
        file("svc/app.py", "python", &[".db", "svc.db"]),
        file("svc/db.py", "python", &[]),
        file("cmd/main.go", "go", &["example.com/app/pkg", "fmt"]),
        file("pkg/a.go", "go", &[]),
        file("pkg/b.go", "go", &[]),
        file("src/main.rs", "rust", &["parser"]),
        file("src/parser/mod.rs", "rust", &[]),
        file("lib/x.cpp", "cpp", &["../inc/x.h", "missing/y.h"]),
        file("inc/x.h", "header", &[]),
    ];
    let g: GraphData = build_graph(&files, &Some("example.com/app".to_string()));
    let links: Vec<(String, String)> = g.links.iter().map(|l| (l.source.clone(), l.target.clone())).collect();
    let expect = |s: &str, t: &str| (s.to_string(), t.to_string());
    assert_eq!(
        links,
        vec![
            expect("main.ts", "web/util.ts"),
            expect("svc/app.py", "svc/db.py"),
            expect("cmd/main.go", "pkg/a.go"),
            expect("cmd/main.go", "pkg/b.go"),
            expect("src/main.rs", "src/parser/mod.rs"),
            expect("lib/x.cpp", "inc/x.h"),
        ]
    );
    let dirs: Vec<String> = g.nodes.iter().filter(|n| n.node_type == "dir").map(|n| n.id.clone()).collect();
    assert_eq!(dirs, vec!["web", "svc", "cmd", "pkg", "src", "src/parser", "lib", "inc"]);
    assert_eq!(g.nodes.len(), dirs.len() + files.len());
    let parser_dir = g.nodes.iter().find(|n| n.id == "src/parser").unwrap();
    assert_eq!(parser_dir.name, "parser");
    assert_eq!(parser_dir.language, "folder");
    let last = g.nodes.last().unwrap();
    assert_eq!((last.id.as_str(), last.node_type.as_str(), last.lines), ("inc/x.h", "file", 2));
}

#[test]
fn cpp_includes_fall_back_to_the_file_name() {
    let files = vec![file("a/main.cpp", "cpp", &["math.h", "util.h"]), file("z/util.h", "header", &[]), file("a/math.h", "header", &[])];
    let g = build_graph(&files, &None);
    let links: Vec<(String, String)> = g.links.iter().map(|l| (l.source.clone(), l.target.clone())).collect();
    assert_eq!(
        links,
        vec![("a/main.cpp".to_string(), "a/math.h".to_string()), ("a/main.cpp".to_string(), "z/util.h".to_string())]
    );
}

fn chars(s: &str) -> Vec<char> {
    s.chars().collect()
}

#[test]
fn captured_imports_follow_the_javascript_fallback_chain() {
    let mut caps = LineCaptures::none();
    caps.js_require = Some("./util".to_string());
    caps.js_dynamic_import = Some("./lazy".to_string());
    let t = chars("const u = require('./util')");
    assert_eq!(statement_imports_from(Language::JavaScript, false, &t, caps), (vec!["./util".to_string()], false));

    let mut caps = LineCaptures::none();
    caps.js_import_simple = Some("./side".to_string());
    caps.js_require = Some("./other".to_string());
    assert_eq!(statement_imports_from(Language::TypeScript, true, &t, caps), (vec!["./side".to_string()], true));

    let caps = LineCaptures::none();
    assert_eq!(statement_imports_from(Language::JavaScript, false, &t, caps), (Vec::<String>::new(), false));
}

#[test]
fn captured_imports_run_the_go_import_block() {
    let open = chars("import (");
    assert_eq!(statement_imports_from(Language::Go, false, &open, LineCaptures::none()), (Vec::<String>::new(), true));
    let mut caps = LineCaptures::none();
    caps.go_import = Some("fmt".to_string());
    let line = chars("\"fmt\"");
    assert_eq!(statement_imports_from(Language::Go, true, &line, caps), (vec!["fmt".to_string()], true));
    let close = chars(")");
    assert_eq!(statement_imports_from(Language::Go, true, &close, LineCaptures::none()), (Vec::<String>::new(), false));
    // Outside a block only an `import ` statement counts.
    let mut caps = LineCaptures::none();
    caps.go_import = Some("os".to_string());
    assert_eq!(statement_imports_from(Language::Go, false, &line, caps), (Vec::<String>::new(), false));
    let mut caps = LineCaptures::none();
    caps.go_import = Some("os".to_string());
    let single = chars("import \"os\"");
    assert_eq!(statement_imports_from(Language::Go, false, &single, caps), (vec!["os".to_string()], false));
}

#[test]
fn captured_imports_split_a_python_import_list() {
    let t = chars("import os, sys ,json");
    let mut caps = LineCaptures::none();
    caps.py_import = Some("os, sys ,json".to_string());
    assert_eq!(
        statement_imports_from(Language::Python, false, &t, caps),
        (vec!["os".to_string(), "sys".to_string(), "json".to_string()], false)
    );
    let mut caps = LineCaptures::none();
    caps.py_from_import = Some("..pkg".to_string());
    caps.py_import = Some("ignored".to_string());
    assert_eq!(statement_imports_from(Language::Python, false, &t, caps), (vec!["..pkg".to_string()], false));
}

#[test]
fn captured_imports_of_rust_prefer_mod() {
    let t = chars("mod a;");
    let mut caps = LineCaptures::none();
    caps.rust_mod = Some("a".to_string());
    caps.rust_use = Some("b".to_string());
    assert_eq!(statement_imports_from(Language::Rust, false, &t, caps), (vec!["a".to_string()], false));
    let mut caps = LineCaptures::none();
    caps.rust_use = Some("b".to_string());
    assert_eq!(statement_imports_from(Language::Rust, false, &t, caps), (vec!["b".to_string()], false));
}

#[test]
fn line_captures_run_the_language_patterns() {
    let parser = Parser::new().unwrap();
    let c = parser.line_captures(Language::JavaScript, "const u = require('./util')");
    assert_eq!(c.js_import_from, None);
    assert_eq!(c.js_import_simple, None);
    assert_eq!(c.js_require, Some("./util".to_string()));
    assert_eq!(c.js_dynamic_import, None);
    assert_eq!(c.go_import, None);
    let c = parser.line_captures(Language::Python, "from .models import User");
    assert_eq!(c.py_from_import, Some(".models".to_string()));
    assert_eq!(c.py_import, None);
}
