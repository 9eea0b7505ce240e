use static_res::entry::{copy_segments, PathEntry};

fn strings(segments: &[&str]) -> Vec<String> {
    segments.iter().map(|s| s.to_string()).collect()
}

#[test]
fn splits_the_final_segment_off() {
    let entry = PathEntry::new(strings(&["tests", "folder", "test.txt"]), false).unwrap();
    assert_eq!(entry.dirs, strings(&["tests", "folder"]));
    assert_eq!(entry.last, "test.txt");
    assert!(!entry.is_directory);
}

#[test]
fn single_segment_has_no_directories() {
    let entry = PathEntry::new(strings(&["tests"]), true).unwrap();
    assert!(entry.dirs.is_empty());
    assert_eq!(entry.last, "tests");
    assert!(entry.is_directory);
}

#[test]
fn path_without_segments_gives_no_entry() {
    assert!(PathEntry::new(Vec::new(), false).is_none());
    assert!(PathEntry::new(Vec::new(), true).is_none());
}

#[test]
fn segments_give_the_whole_path_back() {
    let path = strings(&[".", "a", "b.txt"]);
    let entry = PathEntry::new(path.clone(), false).unwrap();
    assert_eq!(entry.segments(), path);
    let entry = PathEntry::new(strings(&["only"]), false).unwrap();
    assert_eq!(entry.segments(), strings(&["only"]));
}

#[test]
fn copies_are_equal_to_what_they_copy() {
    let path = strings(&["a", "b", "c"]);
    assert_eq!(copy_segments(&path), path);
    assert_eq!(copy_segments(&Vec::new()), Vec::<String>::new());
}
