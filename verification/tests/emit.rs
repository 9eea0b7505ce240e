use static_res::emit::{ConstantDecl, EmitError, NamespaceDecl, Resolution};
use static_res::entry::{PathEntry, WalkItem};
use static_res::tree::{build, NamespaceNode};

fn strings(path: &str) -> Vec<String> {
    path.split('/').map(|s| s.to_string()).collect()
}

fn file(path: &str) -> PathEntry {
    PathEntry::new(strings(path), false).unwrap()
}

fn dir(path: &str) -> PathEntry {
    PathEntry::new(strings(path), true).unwrap()
}

fn found(entries: Vec<PathEntry>) -> Vec<WalkItem> {
    entries.into_iter().map(WalkItem::Found).collect()
}

fn resolved(path: &str) -> Resolution {
    Resolution { path: strings(path), canonical: Some(format!("/abs/{}", path)) }
}

fn gone(path: &str) -> Resolution {
    Resolution { path: strings(path), canonical: None }
}

fn resolve_all(tree: &NamespaceNode) -> Vec<Resolution> {
    tree.file_paths()
        .into_iter()
        .map(|path| Resolution { canonical: Some(format!("/abs/{}", path.join("/"))), path })
        .collect()
}

fn constant(name: &str, path: &str) -> ConstantDecl {
    ConstantDecl { name: name.to_string(), path: path.to_string() }
}

#[test]
fn empty_tree_declares_nothing() {
    let tree = build("assets".to_string(), None, Vec::new());
    assert!(tree.file_paths().is_empty());
    let decl = tree.emit(&Vec::new()).unwrap();
    assert_eq!(
        decl,
        NamespaceDecl {
            name: "assets".to_string(),
            visibility: None,
            namespaces: Vec::new(),
            constants: Vec::new(),
        }
    );
}

#[test]
fn flat_files_become_constants_of_the_root() {
    let tree = build(String::new(), None, found(vec![file("a.txt"), file("b-c.bin"), file("d")]));
    let decl = tree.emit(&resolve_all(&tree)).unwrap();
    assert!(decl.namespaces.is_empty());
    assert_eq!(
        decl.constants,
        vec![
            constant("a_txt", "/abs/a.txt"),
            constant("b_c_bin", "/abs/b-c.bin"),
            constant("d", "/abs/d"),
        ]
    );
}

#[test]
fn nested_files_become_constants_of_nested_namespaces() {
    let tree = build(
        String::new(),
        None,
        found(vec![
            dir("tests"),
            file("tests/test.txt"),
            dir("tests/folder"),
            file("tests/folder/test.txt"),
        ]),
    );
    let decl = tree.emit(&resolve_all(&tree)).unwrap();
    assert!(decl.constants.is_empty());
    assert_eq!(decl.namespaces.len(), 1);
    let tests = &decl.namespaces[0];
    assert_eq!(tests.name, "tests");
    assert_eq!(tests.visibility, None);
    assert_eq!(tests.constants, vec![constant("test_txt", "/abs/tests/test.txt")]);
    assert_eq!(tests.namespaces.len(), 1);
    let folder = &tests.namespaces[0];
    assert_eq!(folder.name, "folder");
    assert_eq!(folder.constants, vec![constant("test_txt", "/abs/tests/folder/test.txt")]);
    assert!(folder.namespaces.is_empty());
}

#[test]
fn namespace_names_are_sanitized() {
    let tree = build(String::new(), None, found(vec![file("my-dir/v1.2/file.tar.gz")]));
    let decl = tree.emit(&resolve_all(&tree)).unwrap();
    assert_eq!(decl.namespaces[0].name, "my_dir");
    assert_eq!(decl.namespaces[0].namespaces[0].name, "v1_2");
    assert_eq!(
        decl.namespaces[0].namespaces[0].constants,
        vec![constant("file_tar_gz", "/abs/my-dir/v1.2/file.tar.gz")]
    );
}

#[test]
fn root_name_is_kept_as_given() {
    let tree = build("my-root".to_string(), Some("pub(super)".to_string()), Vec::new());
    let decl = tree.emit(&Vec::new()).unwrap();
    assert_eq!(decl.name, "my-root");
    assert_eq!(decl.visibility, Some("pub(super)".to_string()));
}

#[test]
fn nested_namespaces_are_fully_exported() {
    let tree = build(
        "assets".to_string(),
        Some("pub(crate)".to_string()),
        found(vec![file("a/b/c")]),
    );
    let decl = tree.emit(&resolve_all(&tree)).unwrap();
    assert_eq!(decl.visibility, Some("pub(crate)".to_string()));
    assert_eq!(decl.namespaces[0].visibility, None);
    assert_eq!(decl.namespaces[0].namespaces[0].visibility, None);
}

#[test]
fn names_that_sanitize_alike_are_both_declared() {
    let tree = build(String::new(), None, found(vec![file("a.b"), file("a-b")]));
    let decl = tree.emit(&resolve_all(&tree)).unwrap();
    assert_eq!(decl.constants, vec![constant("a_b", "/abs/a.b"), constant("a_b", "/abs/a-b")]);
}

#[test]
fn names_that_are_no_identifiers_pass_through() {
    let tree = build(String::new(), None, found(vec![file("1 file.txt")]));
    let decl = tree.emit(&resolve_all(&tree)).unwrap();
    assert_eq!(decl.constants, vec![constant("1 file_txt", "/abs/1 file.txt")]);
}

#[test]
fn file_paths_come_in_emission_order() {
    let tree = build(
        String::new(),
        None,
        found(vec![file("top.txt"), file("a/x"), file("b/y"), file("a/deep/z"), file("last")]),
    );
    assert_eq!(
        tree.file_paths(),
        vec![strings("a/deep/z"), strings("a/x"), strings("b/y"), strings("top.txt"), strings("last")]
    );
}

#[test]
fn file_paths_keep_the_discovered_form() {
    let tree = build(String::new(), None, found(vec![file("./a/./x")]));
    assert_eq!(tree.file_paths(), vec![strings("./a/./x")]);
    let decl = tree.emit(&vec![resolved("./a/./x")]).unwrap();
    assert_eq!(decl.namespaces[0].constants, vec![constant("x", "/abs/./a/./x")]);
}

#[test]
fn directories_have_no_path_to_resolve() {
    let tree = build(String::new(), None, found(vec![dir("a"), dir("a/b"), dir("c")]));
    assert!(tree.file_paths().is_empty());
    let decl = tree.emit(&Vec::new()).unwrap();
    assert_eq!(decl.namespaces.len(), 2);
    assert_eq!(decl.namespaces[0].name, "a");
    assert_eq!(decl.namespaces[0].namespaces[0].name, "b");
    assert_eq!(decl.namespaces[1].name, "c");
}

#[test]
fn vanished_file_fails_the_emission() {
    let tree = build(String::new(), None, found(vec![file("a.txt"), file("b.txt")]));
    let table = vec![resolved("a.txt"), gone("b.txt")];
    assert_eq!(
        tree.emit(&table),
        Err(EmitError::PathResolutionFailure { path: strings("b.txt") })
    );
}

#[test]
fn vanished_nested_file_fails_the_emission() {
    let tree = build(String::new(), None, found(vec![file("top"), file("a/b/c.bin")]));
    let table = vec![resolved("top"), gone("a/b/c.bin")];
    assert_eq!(
        tree.emit(&table),
        Err(EmitError::PathResolutionFailure { path: strings("a/b/c.bin") })
    );
}

#[test]
fn file_without_a_row_fails_the_emission() {
    let tree = build(String::new(), None, found(vec![file("a.txt"), file("b.txt")]));
    assert_eq!(
        tree.emit(&vec![resolved("b.txt")]),
        Err(EmitError::PathResolutionFailure { path: strings("a.txt") })
    );
    assert_eq!(
        tree.emit(&Vec::new()),
        Err(EmitError::PathResolutionFailure { path: strings("a.txt") })
    );
}

#[test]
fn first_failure_in_emission_order_is_reported() {
    let tree = build(String::new(), None, found(vec![file("top"), file("a/x"), file("b/y")]));
    let table = vec![gone("top"), gone("b/y"), resolved("a/x")];
    assert_eq!(tree.emit(&table), Err(EmitError::PathResolutionFailure { path: strings("b/y") }));
    let table = vec![gone("top"), gone("b/y"), gone("a/x")];
    assert_eq!(tree.emit(&table), Err(EmitError::PathResolutionFailure { path: strings("a/x") }));
    let table = vec![gone("top"), resolved("b/y"), resolved("a/x")];
    assert_eq!(tree.emit(&table), Err(EmitError::PathResolutionFailure { path: strings("top") }));
}

#[test]
fn first_row_for_a_path_decides() {
    let tree = build(String::new(), None, found(vec![file("a")]));
    let table = vec![
        Resolution { path: strings("a"), canonical: Some("/first/a".to_string()) },
        Resolution { path: strings("a"), canonical: Some("/second/a".to_string()) },
    ];
    assert_eq!(tree.emit(&table).unwrap().constants, vec![constant("a", "/first/a")]);
    let table = vec![gone("a"), resolved("a")];
    assert_eq!(tree.emit(&table), Err(EmitError::PathResolutionFailure { path: strings("a") }));
}

#[test]
fn rows_are_matched_by_the_whole_path() {
    let tree = build(String::new(), None, found(vec![file("a/b")]));
    let table = vec![resolved("a"), resolved("b"), resolved("a/b/c"), resolved("x/b")];
    assert_eq!(tree.emit(&table), Err(EmitError::PathResolutionFailure { path: strings("a/b") }));
    let table = vec![resolved("a"), resolved("a/b")];
    assert_eq!(
        tree.emit(&table).unwrap().namespaces[0].constants,
        vec![constant("b", "/abs/a/b")]
    );
}

#[test]
fn rows_for_other_paths_are_ignored() {
    let tree = build(String::new(), None, found(vec![file("a")]));
    let table = vec![resolved("zzz"), gone("nowhere"), resolved("a")];
    assert_eq!(tree.emit(&table).unwrap().constants, vec![constant("a", "/abs/a")]);
}

#[test]
fn overwritten_file_is_not_resolved() {
    let mut tree = NamespaceNode::new(String::new(), None);
    tree.insert(file("p/x"));
    tree.insert(dir("p/x"));
    assert!(tree.file_paths().is_empty());
    let decl = tree.emit(&vec![gone("p/x")]).unwrap();
    assert!(decl.namespaces[0].constants.is_empty());
    assert_eq!(decl.namespaces[0].namespaces[0].name, "x");
}

#[test]
fn same_files_in_another_order_declare_the_same() {
    let one = build(String::new(), None, found(vec![file("a/x.txt"), file("b.txt"), file("a/y")]));
    let two = build(String::new(), None, found(vec![file("a/y"), file("b.txt"), file("a/x.txt")]));
    let first = one.emit(&resolve_all(&one)).unwrap();
    let second = two.emit(&resolve_all(&two)).unwrap();
    assert_eq!(first.constants, second.constants);
    assert_eq!(first.namespaces.len(), 1);
    assert_eq!(second.namespaces.len(), 1);
    let mut a1: Vec<(String, String)> =
        first.namespaces[0].constants.iter().map(|c| (c.name.clone(), c.path.clone())).collect();
    let mut a2: Vec<(String, String)> =
        second.namespaces[0].constants.iter().map(|c| (c.name.clone(), c.path.clone())).collect();
    a1.sort();
    a2.sort();
    assert_eq!(a1, a2);
    assert_eq!(
        a1,
        vec![
            ("x_txt".to_string(), "/abs/a/x.txt".to_string()),
            ("y".to_string(), "/abs/a/y".to_string()),
        ]
    );
}

#[test]
fn declaration_without_a_name_encloses_nothing() {
    let bare = build(String::new(), None, Vec::new()).emit(&Vec::new()).unwrap();
    assert!(!bare.is_enclosing());
    let named = build("assets".to_string(), None, Vec::new()).emit(&Vec::new()).unwrap();
    assert!(named.is_enclosing());
}

#[test]
fn file_passed_over_for_a_namespace_is_not_resolved() {
    let tree = build(String::new(), None, found(vec![dir("p"), file("p/in"), file("p")]));
    assert_eq!(tree.file_paths(), vec![strings("p/in")]);
    let decl = tree.emit(&vec![resolved("p/in"), gone("p")]).unwrap();
    assert!(decl.constants.is_empty());
    assert_eq!(decl.namespaces[0].constants, vec![constant("in", "/abs/p/in")]);
}
