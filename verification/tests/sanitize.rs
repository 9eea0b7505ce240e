use static_res::sanitize::sanitize;

#[test]
fn replaces_dot_comma_and_hyphen() {
    assert_eq!(sanitize("test.txt"), "test_txt");
    assert_eq!(sanitize("a,b-c.d"), "a_b_c_d");
    assert_eq!(sanitize(".,-"), "___");
}

#[test]
fn leaves_other_characters_alone() {
    assert_eq!(sanitize("folder"), "folder");
    assert_eq!(sanitize("with space"), "with space");
    assert_eq!(sanitize("1abc"), "1abc");
    assert_eq!(sanitize("snake_case"), "snake_case");
    assert_eq!(sanitize("Grüße.txt"), "Grüße_txt");
    assert_eq!(sanitize("a+b=c"), "a+b=c");
}

#[test]
fn empty_segment_stays_empty() {
    assert_eq!(sanitize(""), "");
}

#[test]
fn keeps_the_number_of_characters() {
    let raw = "données-2024.v1,final.tar.gz";
    assert_eq!(sanitize(raw).chars().count(), raw.chars().count());
    assert_eq!(sanitize(raw), "données_2024_v1_final_tar_gz");
}

#[test]
fn sanitizing_twice_changes_nothing() {
    for raw in ["test.txt", "a-b", "a,b", "plain", "", "..", "x.y-z,w", "späť.txt"] {
        let once = sanitize(raw);
        assert_eq!(sanitize(&once), once);
    }
}

#[test]
fn distinct_names_may_collide() {
    assert_eq!(sanitize("a.b"), sanitize("a-b"));
    assert_eq!(sanitize("a.b"), sanitize("a,b"));
    assert_eq!(sanitize("a.b"), "a_b");
}
