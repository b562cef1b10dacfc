use split_editor::paths::{completion_base_of, file_title_of, resolve_file_input, walk_path, PathPart, PathValue};

fn name(s: &str) -> PathPart {
    PathPart::Name(s.to_string())
}

fn abs(names: &[&str]) -> PathValue {
    PathValue { absolute: true, names: names.iter().map(|n| n.to_string()).collect() }
}

#[test]
fn walk_follows_parts() {
    let cwd = abs(&["home", "u"]);
    let home = abs(&["home", "u"]);
    let p = walk_path(&cwd, &vec![name("src"), PathPart::Current, name("a")], &home);
    assert_eq!(p.names, vec!["home", "u", "src", "a"]);
    let p = walk_path(&cwd, &vec![PathPart::Parent, PathPart::Parent, PathPart::Parent], &home);
    assert!(p.absolute);
    assert!(p.names.is_empty());
    let p = walk_path(&cwd, &vec![PathPart::Root, name("etc")], &home);
    assert_eq!(p.names, vec!["etc"]);
    let p = walk_path(&abs(&["tmp"]), &vec![name("~"), name("docs")], &home);
    assert_eq!(p.names, vec!["home", "u", "docs"]);
}

#[test]
fn completion_base_splits_last_name() {
    let (input, dir) = completion_base_of("src/ma", abs(&["w", "src", "ma"]));
    assert_eq!(input, "ma");
    assert_eq!(dir.names, vec!["w", "src"]);
    let (input, dir) = completion_base_of("src/", abs(&["w", "src"]));
    assert_eq!(input, "");
    assert_eq!(dir.names, vec!["w", "src"]);
    let (input, dir) = completion_base_of("", abs(&["w"]));
    assert_eq!(input, "");
    assert_eq!(dir.names, vec!["w"]);
    let (input, dir) = completion_base_of("/", abs(&[]));
    assert_eq!(input, "");
    assert!(dir.names.is_empty());
}

#[test]
fn resolve_input_from_working_dir() {
    let (input, dir) =
        resolve_file_input("../lib/x", &vec![PathPart::Parent, name("lib"), name("x")], &abs(&["w", "app"]), &abs(&["h"]));
    assert_eq!(input, "x");
    assert!(dir.absolute);
    assert_eq!(dir.names, vec!["w", "lib"]);
}

#[test]
fn titles_are_relative_to_working_dir() {
    let cwd = abs(&["w"]);
    assert_eq!(file_title_of(&cwd, &vec![name("src"), name("main.rs")]), "src/main.rs");
    assert_eq!(file_title_of(&cwd, &vec![PathPart::Parent, name("x")]), "../x");
    assert_eq!(file_title_of(&cwd, &vec![PathPart::Root, name("w"), name("a")]), "a");
    assert_eq!(file_title_of(&cwd, &vec![PathPart::Root, name("etc"), name("a")]), "/etc/a");
}
