use git_sidecar::remote::{normalize_remote_url, repo_name_from_url, same_remote};

#[test]
fn normalizes_scp_like_ssh_url() {
    assert_eq!(
        normalize_remote_url("git@github.com:andre-a-alves/git-shadow.git").unwrap(),
        "github.com/andre-a-alves/git-shadow"
    );
}

#[test]
fn normalizes_ssh_scheme_url() {
    assert_eq!(
        normalize_remote_url("ssh://git@github.com/andre-a-alves/git-shadow.git").unwrap(),
        "github.com/andre-a-alves/git-shadow"
    );
}

#[test]
fn normalizes_https_url() {
    assert_eq!(
        normalize_remote_url("https://github.com/andre-a-alves/git-shadow.git").unwrap(),
        "github.com/andre-a-alves/git-shadow"
    );
}

#[test]
fn normalizes_https_url_without_dot_git() {
    assert_eq!(
        normalize_remote_url("https://github.com/andre-a-alves/git-shadow").unwrap(),
        "github.com/andre-a-alves/git-shadow"
    );
}

#[test]
fn rejects_local_path_remote() {
    let err = normalize_remote_url("/home/andre/repo.git").unwrap_err();
    assert!(err.contains("unsupported remote.origin.url"));
}

#[test]
fn same_remote_matches_across_ssh_and_https() {
    assert!(same_remote(
        "git@github.com:andre-a-alves/cardlet.git",
        "https://github.com/andre-a-alves/cardlet"
    ));
}

#[test]
fn same_remote_rejects_different_repos() {
    assert!(!same_remote(
        "git@github.com:andre-a-alves/cardlet.git",
        "git@github.com:andre-a-alves/git-shadow.git"
    ));
}

#[test]
fn same_remote_falls_back_to_literal_comparison() {
    assert!(same_remote("/srv/git/repo.git", "/srv/git/repo.git"));
    assert!(!same_remote("/srv/git/repo.git", "/srv/git/other.git"));
}

#[test]
fn derives_repo_name_from_urls() {
    for (url, expected) in [
        ("git@github.com:example/foobar.git", "foobar"),
        ("https://github.com/example/foobar.git", "foobar"),
        ("https://github.com/example/foobar", "foobar"),
        ("https://github.com/example/foobar/", "foobar"),
        ("/srv/git/foobar.git", "foobar"),
    ] {
        assert_eq!(repo_name_from_url(url).unwrap(), expected, "url: {url}");
    }
}

#[test]
fn repo_name_derivation_fails_on_empty_result() {
    assert!(repo_name_from_url("git@github.com:").is_err());
    assert!(repo_name_from_url("/").is_err());
}

// ---------------------------------------------------------------------------

#[test]
fn normalization_keeps_port_and_userinfo_out_of_the_host() {
    assert_eq!(
        normalize_remote_url("ssh://user@example.com:2222/team/project.git/").unwrap(),
        "example.com/team/project"
    );
    assert_eq!(
        normalize_remote_url("  git@host.example:group/sub/repo.git  ").unwrap(),
        "host.example/group/sub/repo"
    );
}

#[test]
fn normalization_errors_name_their_cause() {
    assert_eq!(normalize_remote_url("   ").unwrap_err(), "remote.origin.url is empty");
    assert_eq!(
        normalize_remote_url("https://github.com").unwrap_err(),
        "remote URL is missing a repository path"
    );
    assert_eq!(
        normalize_remote_url("./a/b:c").unwrap_err(),
        "local-path remotes are not supported for config lookup"
    );
    assert_eq!(
        normalize_remote_url("plainword").unwrap_err(),
        "unsupported remote.origin.url 'plainword'; expected SSH or HTTPS-style Git URL"
    );
    assert_eq!(
        normalize_remote_url("git@github.com:../x").unwrap_err(),
        "unsupported remote.origin.url 'git@github.com:../x'; could not derive config path"
    );
    assert!(normalize_remote_url("git@github.com:.git").is_err());
    assert!(normalize_remote_url("git@github.com:a\\b/c").is_err());
}

#[test]
fn repo_name_uses_the_last_separator_of_either_kind() {
    assert_eq!(repo_name_from_url("host:a/b:c.git").unwrap(), "c");
    assert_eq!(repo_name_from_url("name").unwrap(), "name");
    assert_eq!(
        repo_name_from_url("x/..").unwrap_err(),
        "cannot derive a repository name from 'x/..'"
    );
}

#[test]
fn same_remote_compares_trimmed_text_when_normalization_fails() {
    assert!(same_remote("  /srv/x  ", "/srv/x"));
    assert!(!same_remote("git@github.com:a/b", "/srv/x"));
}

#[test]
fn repo_name_is_the_last_segment_without_dot_git() {
    assert_eq!(repo_name_from_url(" https://h/o/r.git/ ").unwrap(), "r");
    assert_eq!(repo_name_from_url("git@h:r").unwrap(), "r");
    assert_eq!(repo_name_from_url("plain").unwrap(), "plain");
    assert!(repo_name_from_url("https://h/o/..").is_err());
    assert!(repo_name_from_url("git@h:.git").is_err());
}

#[test]
fn other_spellings_of_a_remote_normalize_alike() {
    let p = normalize_remote_url("https://github.com/example/foobar").unwrap();
    for x in [
        "alice@github.com:example/foobar",
        "ssh://alice@github.com:22/example/foobar",
        " https://github.com/example/foobar/ ",
        "https://github.com/example/foobar.git",
    ] {
        assert_eq!(normalize_remote_url(x).unwrap(), p, "{x}");
        assert!(same_remote(x, "https://github.com/example/foobar"));
    }
}
