use scpsync::catalog::FileError;
use scpsync::paths::{get_reative_path, path_components, remote_path};

#[test]
fn relative_path_of_nested_file() {
    let r = get_reative_path("/src/sub/b.txt", "/src").unwrap();
    assert_eq!(r, "sub/b.txt");
}

#[test]
fn relative_path_of_direct_child() {
    let r = get_reative_path("/src/a.txt", "/src").unwrap();
    assert_eq!(r, "a.txt");
}

#[test]
fn relative_path_ignores_trailing_separator_on_root() {
    let r = get_reative_path("/src/sub/b.txt", "/src/").unwrap();
    assert_eq!(r, "sub/b.txt");
}

#[test]
fn relative_path_normalizes_backslashes() {
    // A path written with the other separator convention maps to the same
    // `/`-separated relative address.
    let r = get_reative_path("C:\\src\\sub\\b.txt", "C:\\src").unwrap();
    assert_eq!(r, "sub/b.txt");
}

#[test]
fn path_outside_root_is_rejected() {
    let r = get_reative_path("/elsewhere/b.txt", "/src");
    match r {
        Err(FileError::PathNotUnderRoot(p)) => assert_eq!(p, "/elsewhere/b.txt"),
        _ => panic!("a path outside the root must be rejected"),
    }
}

#[test]
fn sibling_with_shared_letters_is_outside_root() {
    // "/srcmore" merely starts with the letters of "/src": it is not under
    // that root.
    let r = get_reative_path("/srcmore/b.txt", "/src");
    assert!(matches!(r, Err(FileError::PathNotUnderRoot(_))));
}

#[test]
fn relative_path_of_root_itself_is_empty() {
    let r = get_reative_path("/src", "/src").unwrap();
    assert_eq!(r, "");
}

#[test]
fn remote_path_joins_with_slash() {
    assert_eq!(remote_path("/backup", "sub/b.txt"), "/backup/sub/b.txt");
}

#[test]
fn round_trip_reproduces_remote_address() {
    // Joining the destination root with the mapped relative address gives
    // the intended remote path.
    let rel = get_reative_path("/src/sub/b.txt", "/src").unwrap();
    let remote = remote_path("/backup", rel.as_str());
    assert_eq!(remote, "/backup/sub/b.txt");
}

#[test]
fn components_drop_empty_runs() {
    assert_eq!(
        path_components("//a///b/"),
        vec!["a".to_string(), "b".to_string()]
    );
    assert_eq!(path_components(""), Vec::<String>::new());
    assert_eq!(path_components("///"), Vec::<String>::new());
}
