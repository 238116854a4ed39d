use tangl::completion::{
    complete_filtered, resolve_relative, AbsolutePathCompletion, PathCompletion,
    RelativePathCompletion,
};
use tangl::qualified_path::QualifiedPath;

fn setup_qualified_paths() -> Vec<QualifiedPath> {
    vec![
        QualifiedPath::from("foo"),
        QualifiedPath::from("foo/bar/baz1"),
        QualifiedPath::from("foo/bar/baz2"),
        QualifiedPath::from("foo/abc/def"),
        QualifiedPath::from("foo/abc"),
    ]
}

#[test]
fn test_relative_path_completion_from_virtual_root() {
    let mut paths = setup_qualified_paths()
        .into_iter()
        .map(|path| QualifiedPath::from("") + path)
        .collect::<Vec<QualifiedPath>>();
    paths.push(QualifiedPath::from("/bar"));
    let completion = RelativePathCompletion::new(QualifiedPath::new());

    let mut direct = completion.complete(&QualifiedPath::from(""), &paths);
    direct.sort();
    assert_eq!(
        direct,
        vec!["/bar", "/foo", "/foo/abc", "/foo/abc/def", "/foo/bar/baz1", "/foo/bar/baz2"]
    );

    let mut prefixed1 = completion.complete(&QualifiedPath::from("/f"), &paths);
    prefixed1.sort();
    assert_eq!(prefixed1, vec!["/foo", "/foo/"]);
}

#[test]
fn test_relative_path_completion_relative_identifier_current_path() {
    let paths = setup_qualified_paths();
    let completion = RelativePathCompletion::new(QualifiedPath::from("foo"));

    let mut direct = completion.complete(&QualifiedPath::from("."), &paths);
    direct.sort();
    assert_eq!(direct, vec!["./abc", "./abc/def", "./bar/baz1", "./bar/baz2"]);

    let mut direct_with_slash = completion.complete(&QualifiedPath::from("./"), &paths);
    direct_with_slash.sort();
    assert_eq!(direct_with_slash, vec!["./abc", "./abc/", "./bar/"]);

    let mut prefixed = completion.complete(&QualifiedPath::from("./a"), &paths);
    prefixed.sort();
    assert_eq!(prefixed, vec!["./abc", "./abc/"]);

    let mut consecutive = completion.complete(&QualifiedPath::from("./b"), &paths);
    consecutive.sort();
    assert_eq!(consecutive, vec!["./bar/baz1", "./bar/baz2"]);
}

#[test]
fn test_relative_path_completion_relative_identifier_previous_path() {
    let paths = setup_qualified_paths();
    let completion = RelativePathCompletion::new(QualifiedPath::from("foo"));

    let mut direct = completion.complete(&QualifiedPath::from("../"), &paths);
    direct.sort();
    assert_eq!(direct, vec!["../foo", "../foo/"]);

    let mut consecutive = completion.complete(&QualifiedPath::from("../foo/"), &paths);
    consecutive.sort();
    assert_eq!(consecutive, vec!["../foo/abc", "../foo/abc/", "../foo/bar/"]);

    let mut previous_of_previous = completion.complete(&QualifiedPath::from("abc/../../"), &paths);
    previous_of_previous.sort();
    assert_eq!(previous_of_previous, vec!["abc/../../foo", "abc/../../foo/"]);
}

#[test]
fn test_relative_path_completion_current_path() {
    let paths = setup_qualified_paths();
    let completion = RelativePathCompletion::new(QualifiedPath::from("foo"));

    let mut direct = completion.complete(&QualifiedPath::from(""), &paths);
    direct.sort();
    assert_eq!(direct, vec!["abc", "abc/", "bar/"]);

    let mut prefixed = completion.complete(&QualifiedPath::from("a"), &paths);
    prefixed.sort();
    assert_eq!(prefixed, vec!["abc", "abc/"]);

    let mut consecutive = completion.complete(&QualifiedPath::from("b"), &paths);
    consecutive.sort();
    assert_eq!(consecutive, vec!["bar/baz1", "bar/baz2"]);
}

#[test]
fn absolute_completion_offers_the_next_steps_in_order() {
    let paths = setup_qualified_paths();
    let completion = AbsolutePathCompletion;
    assert_eq!(
        completion.complete(&QualifiedPath::from("foo/"), &paths),
        vec!["foo/bar/", "foo/abc/", "foo/abc"]
    );
    assert_eq!(
        completion.complete(&QualifiedPath::from("foo/b"), &paths),
        vec!["foo/bar/baz1", "foo/bar/baz2"]
    );
    assert_eq!(completion.complete(&QualifiedPath::from("foo/abc/d"), &paths), vec!["foo/abc/def"]);
    assert!(completion.complete(&QualifiedPath::from("x"), &paths).is_empty());
    let kept = completion.transform_and_filter_path(&QualifiedPath::from("foo/a"), &paths);
    assert_eq!(kept.len(), 2);
}

#[test]
fn relative_places() {
    let base = QualifiedPath::from("a/b");
    assert_eq!(resolve_relative(&base, &QualifiedPath::from("..")).to_string(), "a");
    assert_eq!(resolve_relative(&base, &QualifiedPath::from("./c")).to_string(), "a/b/c");
    assert_eq!(resolve_relative(&base, &QualifiedPath::from("../../..")).to_string(), "..");
    assert_eq!(
        resolve_relative(&QualifiedPath::new(), &QualifiedPath::from("../..")).to_string(),
        "../.."
    );
    assert!(complete_filtered(&base, &Vec::new()).is_empty());
    let short = vec![QualifiedPath::from("a"), QualifiedPath::from("a/b/c")];
    assert_eq!(complete_filtered(&base, &short), vec!["a", "a/b/"]);
}
