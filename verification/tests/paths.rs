use git_sidecar::paths::{is_portable_relative_path, normalize_lexically, relative_mapping};

#[test]
fn computes_mapping_relative_to_parent_repo() {
    let parent = "/home/user/project";

    assert_eq!(
        relative_mapping(parent, "/home/user/project/foobar", false).unwrap(),
        "foobar/"
    );
    assert_eq!(
        relative_mapping(parent, "/home/user/project/sub/./x/../fb", false).unwrap(),
        "sub/fb/"
    );
}

#[test]
fn mapping_outside_parent_repo_is_an_error() {
    let parent = "/home/user/project";

    let err = relative_mapping(parent, "/home/user/elsewhere", false).unwrap_err();
    assert!(err.contains("outside the parent repository"));

    let err = relative_mapping(parent, "/home/user/project/sub/../..", false).unwrap_err();
    assert!(err.contains("outside the parent repository"));
}

#[test]
fn mapping_at_parent_repo_root_is_an_error() {
    let parent = "/home/user/project";

    let err = relative_mapping(parent, "/home/user/project", false).unwrap_err();
    assert!(err.contains("parent repository root"));
}

// ---------------------------------------------------------------------------

#[test]
fn normalization_resolves_dots_lexically() {
    assert_eq!(normalize_lexically("/a/./b/../c//d/", false), "/a/c/d");
    assert_eq!(normalize_lexically("../x/y/..", false), "x");
    assert_eq!(normalize_lexically("/..", false), "/");
    assert_eq!(normalize_lexically("", false), "");
    assert_eq!(normalize_lexically("./", false), "");
}

#[test]
fn outside_error_names_both_normalized_paths() {
    assert_eq!(
        relative_mapping("/p/./q", "/p/r/", false).unwrap_err(),
        "target directory /p/r is outside the parent repository /p/q"
    );
    assert_eq!(
        relative_mapping("/p", "/p/q/..", false).unwrap_err(),
        "target directory is the parent repository root"
    );
}

#[test]
fn portable_relative_paths() {
    assert!(is_portable_relative_path(".vendor/x/"));
    assert!(is_portable_relative_path("ab:c"));
    assert!(!is_portable_relative_path("a:b"));
    assert!(!is_portable_relative_path("/tmp/x"));
    assert!(!is_portable_relative_path("\\share"));
    assert!(!is_portable_relative_path("C:\\tmp"));
    assert!(!is_portable_relative_path("z:"));
}

#[test]
fn stored_mapping_leads_back_to_the_target() {
    for (parent, target) in [
        ("/p", "/p/a/b"),
        ("/p/", "/p/./a/../b/c/"),
        ("rel", "rel/x"),
        ("", "x/y"),
    ] {
        let mapping = relative_mapping(parent, target, false).unwrap();
        let joined = if parent.is_empty() || parent.ends_with('/') {
            format!("{parent}{mapping}")
        } else {
            format!("{parent}/{mapping}")
        };
        assert_eq!(normalize_lexically(&joined, false), normalize_lexically(target, false));
    }
    // from the normalized parent too
    let parent = "/p/./q/../r";
    let mapping = relative_mapping(parent, "/p/r/s/t", false).unwrap();
    let joined = format!("{}/{mapping}", normalize_lexically(parent, false));
    assert_eq!(normalize_lexically(&joined, false), "/p/r/s/t");
}

#[test]
fn normalizing_twice_is_normalizing_once() {
    for p in ["/home/user/project/sub/./x/../fb", "/home/user/project/sub/../..", "a//b/./", "../x", ""] {
        let once = normalize_lexically(p, false);
        assert_eq!(normalize_lexically(&once, false), once);
        assert!(once.split('/').all(|c| c != "." && c != ".."));
    }
    assert_eq!(normalize_lexically("/home/user/project/sub/./x/../fb", false), "/home/user/project/sub/fb");
    assert_eq!(normalize_lexically("/home/user/project/sub/../..", false), "/home/user");
}

#[test]
fn mapping_is_relative_normal_and_ends_in_a_slash() {
    let m = relative_mapping("/p", "/p/./a//b/", false).unwrap();
    assert_eq!(m, "a/b/");
    assert!(relative_mapping("/p", "/p", false).is_err());
    assert!(relative_mapping("/p", "/q/a", false).is_err());
}

#[test]
fn windows_paths_separate_on_backslashes_too() {
    assert_eq!(relative_mapping("C:\\repo", "C:\\repo\\sub", true), Ok("sub/".to_string()));
    assert_eq!(
        relative_mapping("C:\\repo", "C:\\repo\\sub\\.\\x\\..\\fb", true),
        Ok("sub/fb/".to_string())
    );
    assert_eq!(
        relative_mapping("C:\\repo", "C:\\other", true),
        Err("target directory C:\\other is outside the parent repository C:\\repo".to_string())
    );
    assert_eq!(normalize_lexically("C:\\a\\..\\b", true), "C:\\b");
    assert_eq!(normalize_lexically("C:/a/./b", true), "C:\\a\\b");
    // elsewhere a backslash is an ordinary character
    assert_eq!(normalize_lexically("a\\..\\b", false), "a\\..\\b");
}

#[test]
fn a_path_without_parent_components_keeps_its_components() {
    assert_eq!(normalize_lexically("/a//b/./c/", false), "/a/b/c");
    assert_eq!(normalize_lexically("./a/b", false), "a/b");
}
