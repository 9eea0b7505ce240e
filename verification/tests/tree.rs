use static_res::entry::{PathEntry, WalkItem};
use static_res::tree::{build, NamespaceNode};

fn entry(path: &str, is_directory: bool) -> PathEntry {
    let segments: Vec<String> = path.split('/').map(|s| s.to_string()).collect();
    PathEntry::new(segments, is_directory).unwrap()
}

fn file(path: &str) -> PathEntry {
    entry(path, false)
}

fn dir(path: &str) -> PathEntry {
    entry(path, true)
}

fn found(entries: Vec<PathEntry>) -> Vec<WalkItem> {
    entries.into_iter().map(WalkItem::Found).collect()
}

fn child_names(node: &NamespaceNode) -> Vec<String> {
    node.children().iter().map(|c| c.name().clone()).collect()
}

fn file_names(node: &NamespaceNode) -> Vec<String> {
    node.entries().iter().map(|e| e.last.clone()).collect()
}

#[test]
fn new_root_holds_nothing() {
    let root = NamespaceNode::new("assets".to_string(), Some("pub(crate)".to_string()));
    assert_eq!(root.name(), "assets");
    assert_eq!(root.visibility(), &Some("pub(crate)".to_string()));
    assert!(root.children().is_empty());
    assert!(root.entries().is_empty());
}

#[test]
fn nothing_found_gives_the_bare_root() {
    let tree = build("assets".to_string(), None, Vec::new());
    assert_eq!(tree, NamespaceNode::new("assets".to_string(), None));
    assert!(tree.children().is_empty());
    assert!(tree.entries().is_empty());
}

#[test]
fn failures_are_passed_over() {
    let items = vec![
        WalkItem::Failed,
        WalkItem::Found(file("a.txt")),
        WalkItem::Failed,
        WalkItem::Found(file("b.txt")),
        WalkItem::Failed,
    ];
    let tree = build(String::new(), None, items);
    let plain = build(String::new(), None, found(vec![file("a.txt"), file("b.txt")]));
    assert_eq!(tree, plain);
    assert_eq!(file_names(&tree), ["a.txt", "b.txt"]);
}

#[test]
fn only_failures_give_the_bare_root() {
    let tree = build(String::new(), None, vec![WalkItem::Failed, WalkItem::Failed]);
    assert_eq!(tree, NamespaceNode::new(String::new(), None));
}

#[test]
fn flat_files_stand_in_the_root() {
    let tree = build(
        String::new(),
        None,
        found(vec![file("one.txt"), file("two.bin"), file("three")]),
    );
    assert!(tree.children().is_empty());
    assert_eq!(file_names(&tree), ["one.txt", "two.bin", "three"]);
    assert_eq!(tree.file("two.bin"), Some(&file("two.bin")));
    assert_eq!(tree.file("missing"), None);
}

#[test]
fn nested_paths_mirror_the_directories() {
    let tree = build(
        String::new(),
        None,
        found(vec![
            dir("tests"),
            file("tests/test.txt"),
            dir("tests/folder"),
            file("tests/folder/test.txt"),
        ]),
    );
    assert_eq!(child_names(&tree), ["tests"]);
    assert!(tree.entries().is_empty());
    let tests = tree.child("tests").unwrap();
    assert_eq!(tests.name(), "tests");
    assert_eq!(tests.visibility(), &None);
    assert_eq!(file_names(tests), ["test.txt"]);
    assert_eq!(tests.file("test.txt"), Some(&file("tests/test.txt")));
    assert_eq!(child_names(tests), ["folder"]);
    let folder = tests.child("folder").unwrap();
    assert_eq!(file_names(folder), ["test.txt"]);
    assert_eq!(folder.file("test.txt"), Some(&file("tests/folder/test.txt")));
    assert!(folder.children().is_empty());
}

#[test]
fn directories_are_made_on_the_way() {
    let mut tree = NamespaceNode::new(String::new(), None);
    tree.insert(file("a/b/c/d.txt"));
    let a = tree.child("a").unwrap();
    let b = a.child("b").unwrap();
    let c = b.child("c").unwrap();
    assert_eq!(file_names(c), ["d.txt"]);
    assert!(a.entries().is_empty());
    assert!(b.entries().is_empty());
    assert!(c.children().is_empty());
    assert_eq!(a.visibility(), &None);
}

#[test]
fn revisited_directory_is_one_namespace() {
    let mut tree = NamespaceNode::new(String::new(), None);
    tree.insert(file("assets/img/a.png"));
    tree.insert(file("assets/img/b.png"));
    tree.insert(file("assets/c.css"));
    assert_eq!(child_names(&tree), ["assets"]);
    let assets = tree.child("assets").unwrap();
    assert_eq!(child_names(assets), ["img"]);
    assert_eq!(file_names(assets), ["c.css"]);
    let img = assets.child("img").unwrap();
    assert_eq!(file_names(img), ["a.png", "b.png"]);
}

#[test]
fn current_directory_segments_are_skipped() {
    let mut tree = NamespaceNode::new(String::new(), None);
    tree.insert(file("./a/./b.txt"));
    assert_eq!(child_names(&tree), ["a"]);
    let a = tree.child("a").unwrap();
    assert!(a.children().is_empty());
    assert_eq!(file_names(a), ["b.txt"]);
    assert_eq!(a.file("b.txt").unwrap().segments(), [".", "a", ".", "b.txt"]);
}

#[test]
fn current_directory_as_final_segment_is_kept() {
    let mut tree = NamespaceNode::new(String::new(), None);
    tree.insert(dir("."));
    assert_eq!(child_names(&tree), ["."]);
    tree.insert(file("a/."));
    assert_eq!(file_names(tree.child("a").unwrap()), ["."]);
}

#[test]
fn parent_directory_segments_are_ordinary_names() {
    let mut tree = NamespaceNode::new(String::new(), None);
    tree.insert(file("../x.txt"));
    assert_eq!(child_names(&tree), [".."]);
    assert_eq!(file_names(tree.child("..").unwrap()), ["x.txt"]);
}

#[test]
fn same_file_twice_is_one_file() {
    let mut tree = NamespaceNode::new(String::new(), None);
    tree.insert(file("a/x.txt"));
    tree.insert(file("a/y.txt"));
    tree.insert(file("./a/x.txt"));
    let a = tree.child("a").unwrap();
    assert_eq!(file_names(a), ["x.txt", "y.txt"]);
    assert_eq!(a.file("x.txt"), Some(&file("./a/x.txt")));
}

#[test]
fn directory_after_file_takes_the_name() {
    let mut tree = NamespaceNode::new(String::new(), None);
    tree.insert(file("p/x"));
    tree.insert(file("p/other"));
    tree.insert(dir("p/x"));
    let p = tree.child("p").unwrap();
    assert_eq!(p.file("x"), None);
    assert_eq!(file_names(p), ["other"]);
    assert_eq!(child_names(p), ["x"]);
    assert_eq!(p.child("x"), Some(&NamespaceNode::new("x".to_string(), None)));
}

#[test]
fn file_after_directory_is_passed_over() {
    let mut tree = NamespaceNode::new(String::new(), None);
    tree.insert(dir("p/x"));
    tree.insert(file("p/x/inner.txt"));
    let before = build(String::new(), None, found(vec![dir("p/x"), file("p/x/inner.txt")]));
    tree.insert(file("p/x"));
    assert_eq!(tree, before);
    let p = tree.child("p").unwrap();
    assert_eq!(p.file("x"), None);
    assert!(p.entries().is_empty());
    assert_eq!(file_names(p.child("x").unwrap()), ["inner.txt"]);
}

#[test]
fn file_does_not_take_the_name_of_a_namespace_made_on_the_way() {
    let mut tree = NamespaceNode::new(String::new(), None);
    tree.insert(file("a/x"));
    tree.insert(file("a"));
    assert_eq!(tree.file("a"), None);
    assert!(tree.entries().is_empty());
    assert_eq!(file_names(tree.child("a").unwrap()), ["x"]);
}

#[test]
fn directory_entry_empties_the_namespace_of_its_name() {
    let mut tree = NamespaceNode::new(String::new(), None);
    tree.insert(file("a/b.txt"));
    tree.insert(file("z.txt"));
    tree.insert(dir("a"));
    assert_eq!(child_names(&tree), ["a"]);
    assert_eq!(tree.child("a"), Some(&NamespaceNode::new("a".to_string(), None)));
    assert_eq!(file_names(&tree), ["z.txt"]);
}

#[test]
fn directory_entry_before_its_files_keeps_them() {
    let mut tree = NamespaceNode::new(String::new(), None);
    tree.insert(dir("a"));
    tree.insert(file("a/b.txt"));
    assert_eq!(file_names(tree.child("a").unwrap()), ["b.txt"]);
}

#[test]
fn going_through_a_file_name_makes_it_a_namespace() {
    let mut tree = NamespaceNode::new(String::new(), None);
    tree.insert(file("a"));
    tree.insert(file("a/b.txt"));
    assert_eq!(tree.file("a"), None);
    assert!(tree.entries().is_empty());
    assert_eq!(file_names(tree.child("a").unwrap()), ["b.txt"]);
}

#[test]
fn overwritten_directory_keeps_its_position() {
    let mut tree = NamespaceNode::new(String::new(), None);
    tree.insert(dir("a"));
    tree.insert(dir("b"));
    tree.insert(file("a/x"));
    tree.insert(dir("a"));
    assert_eq!(child_names(&tree), ["a", "b"]);
    assert!(tree.child("a").unwrap().entries().is_empty());
}

#[test]
fn overwritten_file_keeps_its_position() {
    let mut tree = NamespaceNode::new(String::new(), None);
    tree.insert(file("a"));
    tree.insert(file("b"));
    tree.insert(file("./a"));
    assert_eq!(file_names(&tree), ["a", "b"]);
    assert_eq!(tree.entries()[0], file("./a"));
}

#[test]
fn names_are_kept_raw() {
    let mut tree = NamespaceNode::new(String::new(), None);
    tree.insert(file("my-dir/a.b"));
    tree.insert(file("my_dir/a-b"));
    assert_eq!(child_names(&tree), ["my-dir", "my_dir"]);
    assert_eq!(file_names(tree.child("my-dir").unwrap()), ["a.b"]);
    assert_eq!(file_names(tree.child("my_dir").unwrap()), ["a-b"]);
}

#[test]
fn same_name_on_different_levels_does_not_merge() {
    let tree = build(
        String::new(),
        None,
        found(vec![file("tests/test.txt"), file("tests/tests/test.txt"), file("test.txt")]),
    );
    assert_eq!(file_names(&tree), ["test.txt"]);
    let outer = tree.child("tests").unwrap();
    assert_eq!(file_names(outer), ["test.txt"]);
    let inner = outer.child("tests").unwrap();
    assert_eq!(file_names(inner), ["test.txt"]);
    assert_eq!(inner.file("test.txt"), Some(&file("tests/tests/test.txt")));
}

#[test]
fn root_keeps_name_and_qualifier() {
    let tree = build(
        "assets".to_string(),
        Some("pub(crate)".to_string()),
        found(vec![file("a/b"), dir("c")]),
    );
    assert_eq!(tree.name(), "assets");
    assert_eq!(tree.visibility(), &Some("pub(crate)".to_string()));
    assert_eq!(tree.child("a").unwrap().visibility(), &None);
    assert_eq!(tree.child("c").unwrap().visibility(), &None);
}

#[test]
fn build_is_insert_in_arrival_order() {
    let entries = || vec![dir("a"), file("a/x"), file("b"), dir("a/y"), file("a/y/z")];
    let built = build("r".to_string(), None, found(entries()));
    let mut by_hand = NamespaceNode::new("r".to_string(), None);
    for e in entries() {
        by_hand.insert(e);
    }
    assert_eq!(built, by_hand);
}

#[test]
fn order_of_a_walk_does_not_change_what_is_found() {
    let one = vec![dir("a"), file("a/x"), dir("a/d"), file("a/d/y"), dir("b"), file("top")];
    let two = vec![file("top"), dir("b"), dir("a"), dir("a/d"), file("a/d/y"), file("a/x")];
    let first = build(String::new(), None, found(one));
    let second = build(String::new(), None, found(two));
    assert_eq!(first.file("top"), second.file("top"));
    assert!(first.child("b").unwrap().entries().is_empty());
    assert!(second.child("b").unwrap().entries().is_empty());
    let (a1, a2) = (first.child("a").unwrap(), second.child("a").unwrap());
    assert_eq!(a1.file("x"), Some(&file("a/x")));
    assert_eq!(a2.file("x"), Some(&file("a/x")));
    assert_eq!(a1.children().len(), 1);
    assert_eq!(a2.children().len(), 1);
    assert_eq!(a1.child("d").unwrap().file("y"), Some(&file("a/d/y")));
    assert_eq!(a2.child("d").unwrap().file("y"), Some(&file("a/d/y")));
    assert_eq!(first.children().len(), 2);
    assert_eq!(second.children().len(), 2);
}

#[test]
fn order_of_unrelated_entries_does_not_change_what_is_found() {
    let one = vec![file("a/x"), file("b/y"), file("a/z"), dir("c"), file("top")];
    let two = vec![file("top"), dir("c"), file("a/z"), file("b/y"), file("a/x")];
    let first = build(String::new(), None, found(one));
    let second = build(String::new(), None, found(two));
    for name in ["a", "b", "c"] {
        assert!(first.child(name).is_some());
        assert!(second.child(name).is_some());
    }
    assert_eq!(first.file("top"), second.file("top"));
    for (d, f) in [("a", "x"), ("a", "z"), ("b", "y")] {
        assert_eq!(first.child(d).unwrap().file(f), second.child(d).unwrap().file(f));
        assert!(first.child(d).unwrap().file(f).is_some());
    }
    assert_eq!(first.child("a").unwrap().entries().len(), 2);
    assert_eq!(second.child("a").unwrap().entries().len(), 2);
    assert!(second.child("c").unwrap().entries().is_empty());
}

#[test]
fn directory_after_its_contents_matters() {
    let first = build(String::new(), None, found(vec![dir("a"), file("a/b")]));
    let second = build(String::new(), None, found(vec![file("a/b"), dir("a")]));
    assert_eq!(first.child("a").unwrap().entries().len(), 1);
    assert_eq!(second.child("a").unwrap().entries().len(), 0);
}
