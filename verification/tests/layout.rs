use git_sidecar::layout::{disk_state, external_gitdir, gitfile_points_at, DiskFacts, DiskState};

const GITDIR: &str = "/work/.git/git-sidecar/x/gitdir";

/// Nothing at the mapping path.
fn absent() -> DiskFacts {
    DiskFacts {
        dir_exists: false,
        dir_is_dir: false,
        dotgit_exists: false,
        dotgit_is_file: false,
        dotgit_content: None,
        gitdir_valid: false,
        dir_empty: None,
    }
}

/// An existing mapping directory, empty or not.
fn directory(empty: bool) -> DiskFacts {
    DiskFacts {
        dir_exists: true,
        dir_is_dir: true,
        dir_empty: Some(empty),
        ..absent()
    }
}

/// A mapping directory holding a `.git` file with the given text.
fn with_gitlink(content: &str) -> DiskFacts {
    DiskFacts {
        dotgit_exists: true,
        dotgit_is_file: true,
        dotgit_content: Some(content.to_string()),
        ..directory(false)
    }
}

#[test]
fn missing_mapping_without_gitdir_needs_a_clone() {
    assert_eq!(disk_state(&absent(), GITDIR, false), DiskState::Missing);
}

#[test]
fn empty_mapping_without_gitdir_needs_a_clone() {
    assert_eq!(disk_state(&directory(true), GITDIR, false), DiskState::Missing);
}

#[test]
fn missing_mapping_with_valid_gitdir_needs_worktree_restore() {
    let facts = DiskFacts {
        gitdir_valid: true,
        ..absent()
    };
    assert_eq!(disk_state(&facts, GITDIR, false), DiskState::MissingWorktree);
}

#[test]
fn empty_mapping_with_valid_gitdir_is_unified() {
    let facts = DiskFacts {
        gitdir_valid: true,
        ..directory(true)
    };
    assert_eq!(disk_state(&facts, GITDIR, false), DiskState::Unified);
}

#[test]
fn mapping_with_git_dir_is_standalone() {
    let facts = DiskFacts {
        dotgit_exists: true,
        ..directory(false)
    };
    assert_eq!(disk_state(&facts, GITDIR, false), DiskState::Standalone);
}

#[test]
fn mapping_without_git_dir_but_valid_external_gitdir_is_unified() {
    let facts = DiskFacts {
        gitdir_valid: true,
        ..directory(false)
    };
    assert_eq!(disk_state(&facts, GITDIR, false), DiskState::Unified);
}

#[test]
fn leftover_gitlink_pointing_at_external_gitdir_is_unified() {
    let facts = DiskFacts {
        gitdir_valid: true,
        ..with_gitlink(&format!("gitdir: {GITDIR}\n"))
    };
    assert_eq!(disk_state(&facts, GITDIR, false), DiskState::Unified);
}

#[test]
fn gitlink_pointing_elsewhere_is_standalone() {
    let facts = DiskFacts {
        gitdir_valid: true,
        ..with_gitlink("gitdir: /somewhere/else\n")
    };
    assert_eq!(disk_state(&facts, GITDIR, false), DiskState::Standalone);
}

#[test]
fn non_empty_mapping_without_any_git_dir_is_not_a_repo() {
    assert_eq!(disk_state(&directory(false), GITDIR, false), DiskState::NotARepo);
}

#[test]
fn mapping_that_is_a_file_is_not_a_directory() {
    let facts = DiskFacts {
        dir_exists: true,
        ..absent()
    };
    assert_eq!(disk_state(&facts, GITDIR, false), DiskState::NotADirectory);
}

#[test]
fn unlistable_mapping_is_not_a_repo() {
    let facts = DiskFacts {
        dir_empty: None,
        ..directory(true)
    };
    assert_eq!(disk_state(&facts, GITDIR, false), DiskState::NotARepo);
}

#[test]
fn unreadable_gitlink_is_standalone() {
    let facts = DiskFacts {
        dotgit_content: None,
        ..with_gitlink("")
    };
    assert_eq!(disk_state(&facts, GITDIR, false), DiskState::Standalone);
}

#[test]
fn external_gitdir_lives_under_the_common_dir() {
    assert_eq!(
        external_gitdir("/work/.git", "cardlet"),
        "/work/.git/git-sidecar/cardlet/gitdir"
    );
}

#[test]
fn gitlinks_compare_paths_lexically() {
    assert!(gitfile_points_at("gitdir: /a/b/../c\n", "/a/c", false));
    assert!(gitfile_points_at("  gitdir:/a/c/  ", "/a/./c", false));
    assert!(!gitfile_points_at("gitdir: a/c", "/a/c", false));
    assert!(!gitfile_points_at("/a/c", "/a/c", false));
}

#[test]
fn windows_gitlink_may_use_backslashes() {
    assert!(gitfile_points_at("gitdir: C:\\w\\.git\\x\n", "C:/w/.git/x", true));
    assert!(!gitfile_points_at("gitdir: C:\\w\\.git\\x\n", "C:/w/.git/x", false));
}
