use tangl::qualified_path::QualifiedPath;

fn segments(path: &QualifiedPath) -> Vec<String> {
    path.iter().clone()
}

#[test]
fn decode_strips_markers_and_splits() {
    let path = QualifiedPath::from("* _main/_feature/_root/feature1".to_string());
    assert_eq!(segments(&path), vec!["main", "feature", "root", "feature1"]);
    assert_eq!(path.len(), 4);
}

#[test]
fn decode_of_empty_input_is_the_empty_path() {
    assert!(QualifiedPath::from(String::new()).is_empty());
    assert!(QualifiedPath::from("  * ".to_string()).is_empty());
    assert!(QualifiedPath::from("_".to_string()).is_empty());
}

#[test]
fn written_empty_text_is_one_empty_segment() {
    let path = QualifiedPath::from("");
    assert_eq!(path.len(), 1);
    assert_eq!(path.to_string(), "");
    assert_eq!(QualifiedPath::from("/bar").len(), 2);
}

#[test]
fn encode_escapes_all_but_the_last_segment() {
    let path = QualifiedPath::from("main/feature/root/feature1");
    assert_eq!(path.to_git_branch(), "_main/_feature/_root/feature1");
    assert_eq!(QualifiedPath::from("main").to_git_branch(), "main");
    assert_eq!(QualifiedPath::from("areaX/feature").to_git_branch(), "_areaX/feature");
    assert_eq!(QualifiedPath::new().to_git_branch(), "");
}

#[test]
fn round_trip_on_plain_paths() {
    for text in ["main", "a/b", "areaX/feature/login/retry", "x y/z w"] {
        let path = QualifiedPath::from(text);
        let back = QualifiedPath::from(path.to_git_branch());
        assert!(back == path, "{}", text);
    }
}

#[test]
fn round_trip_fails_for_a_checkout_mark_in_a_segment() {
    let path = QualifiedPath::from("a*b/c");
    let back = QualifiedPath::from(path.to_git_branch());
    assert!(back != path);
    assert_eq!(back.to_string(), "ab/c");
}

#[test]
fn concat_appends_segments() {
    let left = QualifiedPath::from("a/b");
    let right = QualifiedPath::from("c");
    assert_eq!(left.concat(&right).to_string(), "a/b/c");
    assert_eq!((left.clone() + right).to_string(), "a/b/c");
    assert_eq!(left.to_string(), "a/b");
}

#[test]
fn trimming_drops_segments() {
    let path = QualifiedPath::from("a/b/c/d");
    assert_eq!(path.trim_n_left(1).to_string(), "b/c/d");
    assert_eq!(path.trim_n_right(1).to_string(), "a/b/c");
    assert_eq!(path.trim_n(1, 3).to_string(), "b/c");
    assert!(path.trim_n_left(4).is_empty());
    assert!(path.trim_n_right(4).is_empty());
}

#[test]
fn starts_with_is_segment_wise() {
    let path = QualifiedPath::from("foo/abc/def");
    assert!(path.starts_with(&QualifiedPath::from("foo/abc")));
    assert!(path.starts_with(&QualifiedPath::new()));
    assert!(!path.starts_with(&QualifiedPath::from("foo/a")));
    assert!(!path.starts_with(&QualifiedPath::from("foo/abc/def/g")));
}

#[test]
fn accessors() {
    let path = QualifiedPath::from("a/b/c");
    assert_eq!(path.first().unwrap(), "a");
    assert_eq!(path.last().unwrap(), "c");
    assert_eq!(path.get(1).unwrap().to_string(), "b");
    assert!(path.get(3).is_none());
    assert!(QualifiedPath::new().first().is_none());
    assert!(QualifiedPath::new().last().is_none());
    assert_eq!(path.child("d").to_string(), "a/b/c/d");
    assert_eq!(QualifiedPath::of_segment("x").len(), 1);
}

#[test]
fn push_splits_at_the_separator() {
    let mut path = QualifiedPath::new();
    path.push("a/b");
    path.push("c");
    assert_eq!(path.len(), 3);
    let parts = vec!["x/y".to_string(), "z".to_string()];
    assert_eq!(QualifiedPath::from(parts).to_string(), "x/y/z");
}
