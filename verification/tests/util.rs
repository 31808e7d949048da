use sift::types::{Hit, Score, SearchOpts};
use sift::util::{apply_opts, extension, glob_match, is_binary_extension, matches_lang, path_join, rg_type_name};

fn hit(path: &str) -> Hit {
    Hit { path: path.to_string(), line: 1, snippet: String::new(), score: Score::zero() }
}

#[test]
fn extensions_follow_path_rules() {
    assert_eq!(extension("src/main.rs"), "rs");
    assert_eq!(extension("archive.tar.gz"), "gz");
    assert_eq!(extension(".bashrc"), "");
    assert_eq!(extension("dir.d/file"), "");
    assert_eq!(extension("a/b.py/"), "py");
    assert_eq!(extension("noext"), "");
    assert_eq!(extension("x/.."), "");
    assert_eq!(extension("trailing."), "");
}

#[test]
fn binary_extensions() {
    assert!(is_binary_extension("logo.png"));
    assert!(is_binary_extension("Cargo.lock"));
    assert!(is_binary_extension("a/b/c.woff2"));
    assert!(!is_binary_extension("main.rs"));
    assert!(!is_binary_extension("README"));
    assert!(!is_binary_extension("x.PNG"));
}

#[test]
fn language_names() {
    assert!(matches_lang("src/lib.rs", "rust"));
    assert!(matches_lang("src/lib.rs", "rs"));
    assert!(matches_lang("app.tsx", "ts"));
    assert!(matches_lang("a.h", "c"));
    assert!(matches_lang("a.cc", "c++"));
    assert!(matches_lang("run.bash", "shell"));
    assert!(matches_lang("conf.yml", "yaml"));
    assert!(matches_lang("data.csv", "csv"));
    assert!(!matches_lang("main.py", "rust"));
    assert!(!matches_lang("Makefile", "make"));
}

#[test]
fn rg_type_names() {
    assert_eq!(rg_type_name("rs"), "rust");
    assert_eq!(rg_type_name("py"), "python");
    assert_eq!(rg_type_name("c++"), "cpp");
    assert_eq!(rg_type_name("cxx"), "cpp");
    assert_eq!(rg_type_name("bash"), "shell");
    assert_eq!(rg_type_name("md"), "markdown");
    assert_eq!(rg_type_name("go"), "go");
}

#[test]
fn globs() {
    assert!(glob_match("*test*", "src/tests/a.rs"));
    assert!(glob_match("vendor/**", "vendor/x/y.rs"));
    assert!(glob_match("*.rs", "src/main.rs"));
    assert!(glob_match("src/[ab].rs", "src/a.rs"));
    assert!(!glob_match("*.py", "src/main.rs"));
    assert!(!glob_match("[", "["));
    assert!(!glob_match("a***b", "ab"));
}

#[test]
fn apply_opts_filters() {
    let hits = vec![hit("src/a.rs"), hit("src/a_test.rs"), hit("lib/b.rs"), hit("src/c.py")];
    let opts = SearchOpts {
        scope: Some("src/".into()),
        lang: Some("rust".into()),
        exclude: vec!["*test*".into()],
        includes: vec![],
    };
    let kept: Vec<String> = apply_opts(hits.clone(), &opts).into_iter().map(|h| h.path).collect();
    assert_eq!(kept, vec!["src/a.rs".to_string()]);
    let only_py = SearchOpts { includes: vec!["*.py".into(), "lib/*".into()], ..Default::default() };
    let kept: Vec<String> = apply_opts(hits.clone(), &only_py).into_iter().map(|h| h.path).collect();
    assert_eq!(kept, vec!["lib/b.rs".to_string(), "src/c.py".to_string()]);
    assert_eq!(apply_opts(hits.clone(), &SearchOpts::default()).len(), 4);
}

#[test]
fn path_joins() {
    assert_eq!(path_join("/repo", ".ag"), "/repo/.ag");
    assert_eq!(path_join("/repo/", ".ag"), "/repo/.ag");
    assert_eq!(path_join("", ".ag"), ".ag");
    assert_eq!(path_join("/repo", "/abs"), "/abs");
}
