use git_sidecar::commands::passthrough::{resolve_invocation, sidecar_for_cwd, USAGE};
use git_sidecar::config::{check_config, Config, Sidecar};

fn sidecar(repo: &str, mapping: &str) -> Sidecar {
    Sidecar {
        repo: repo.to_string(),
        mapping: mapping.to_string(),
        standalone: false,
    }
}

fn entries() -> Vec<(String, Sidecar)> {
    vec![
        (
            "foo".to_string(),
            sidecar("git@github.com:example/foo.git", ".vendor/foo/"),
        ),
        (
            "bar".to_string(),
            sidecar("git@github.com:example/bar.git", "bar/"),
        ),
    ]
}

fn sidecars() -> Config {
    check_config(Some(1), entries()).ok().unwrap()
}

const PARENT: &str = "/home/user/project";

fn resolve(cwd: &str) -> Option<String> {
    let config = sidecars();
    sidecar_for_cwd(cwd, PARENT, &config, false).map(|i| config.sidecars[i].0.clone())
}

#[test]
fn cwd_inside_a_mapping_resolves_to_that_sidecar() {
    assert_eq!(resolve("/home/user/project/.vendor/foo").as_deref(), Some("foo"));
    assert_eq!(
        resolve("/home/user/project/.vendor/foo/src/deep").as_deref(),
        Some("foo")
    );
    assert_eq!(resolve("/home/user/project/bar").as_deref(), Some("bar"));
}

#[test]
fn cwd_in_the_parent_outside_any_mapping_resolves_to_none() {
    assert_eq!(resolve("/home/user/project"), None);
    assert_eq!(resolve("/home/user/project/src"), None);
    assert_eq!(resolve("/home/user/project/.vendor"), None);
}

#[test]
fn cwd_outside_the_parent_resolves_to_none() {
    assert_eq!(resolve("/home/user/elsewhere/bar"), None);
    assert_eq!(resolve("/home/user"), None);
}

#[test]
fn sibling_directory_with_mapping_prefix_does_not_match() {
    // "barbell" starts with "bar" as a string but not as a path
    assert_eq!(resolve("/home/user/project/barbell"), None);
}

#[test]
fn deepest_mapping_wins_when_mappings_nest() {
    let mut all = entries();
    all.push(("nested".to_string(), sidecar("url", ".vendor/foo/nested/")));
    let config = check_config(Some(1), all).ok().unwrap();

    let hit = sidecar_for_cwd("/home/user/project/.vendor/foo/nested/src", PARENT, &config, false);
    assert_eq!(hit.map(|i| config.sidecars[i].0.as_str()), Some("nested"));
}

#[test]
fn unnormalized_paths_are_compared_lexically() {
    assert_eq!(
        resolve("/home/user/project/./bar/../bar/x").as_deref(),
        Some("bar")
    );
    let config = sidecars();
    assert_eq!(
        sidecar_for_cwd("/home/user/project/bar", "/home/user/project/", &config, false)
            .map(|i| config.sidecars[i].0.as_str()),
        Some("bar")
    );
}

fn args(a: &[&str]) -> Vec<String> {
    a.iter().map(|s| s.to_string()).collect()
}

#[test]
fn explicit_name_takes_the_rest_as_git_arguments() {
    let config = sidecars();
    let r = resolve_invocation(&args(&["bar", "status"]), &config, PARENT, PARENT, "/c", false);
    assert_eq!(r, Ok((1, 1)));
}

#[test]
fn explicit_name_wins_over_the_containing_sidecar() {
    let config = sidecars();
    let r = resolve_invocation(
        &args(&["bar", "log"]),
        &config,
        "/home/user/project/.vendor/foo",
        PARENT,
        "/c",
        false,
    );
    assert_eq!(r, Ok((1, 1)));
}

#[test]
fn name_without_git_command_is_a_usage_error() {
    let config = sidecars();
    let r = resolve_invocation(&args(&["bar"]), &config, PARENT, PARENT, "/c", false);
    assert_eq!(r, Err(USAGE.to_string()));
    let r = resolve_invocation(&args(&[]), &config, PARENT, PARENT, "/c", false);
    assert_eq!(r, Err(USAGE.to_string()));
}

#[test]
fn without_a_name_the_containing_sidecar_takes_all_arguments() {
    let config = sidecars();
    let r = resolve_invocation(
        &args(&["status", "-s"]),
        &config,
        "/home/user/project/.vendor/foo/src",
        PARENT,
        "/c",
        false,
    );
    assert_eq!(r, Ok((0, 0)));
}

#[test]
fn unknown_name_outside_a_sidecar_is_an_error() {
    let config = sidecars();
    let r = resolve_invocation(&args(&["status"]), &config, PARENT, PARENT, "/c/config.toml", false);
    assert_eq!(
        r,
        Err(format!(
            "sidecar 'status' not found in /c/config.toml and the current directory is not inside a sidecar\n{USAGE}"
        ))
    );
}

fn parent_with(names: &[&str]) -> Config {
    let v = names
        .iter()
        .map(|n| (n.to_string(), sidecar("/tmp/t/sidecar.git", &format!("{n}/"))))
        .collect();
    check_config(Some(1), v).ok().unwrap()
}

const TPARENT: &str = "/tmp/t/parent";

#[test]
fn passthrough_without_name_inside_sidecar_targets_that_sidecar() {
    let config = parent_with(&["sidecar"]);
    let no_name = resolve_invocation(
        &args(&["log", "--oneline"]),
        &config,
        "/tmp/t/parent/sidecar",
        TPARENT,
        "/c",
        false,
    )
    .unwrap();
    let explicit =
        resolve_invocation(&args(&["sidecar", "log", "--oneline"]), &config, TPARENT, TPARENT, "/c", false)
            .unwrap();
    assert_eq!(no_name.0, explicit.0);
    assert_eq!(&args(&["log", "--oneline"])[no_name.1..], &args(&["sidecar", "log", "--oneline"])[explicit.1..]);
}

#[test]
fn passthrough_with_redundant_explicit_name_inside_that_sidecar_matches() {
    let config = parent_with(&["sidecar"]);
    let inside = "/tmp/t/parent/sidecar";
    let redundant =
        resolve_invocation(&args(&["sidecar", "log", "--oneline"]), &config, inside, TPARENT, "/c", false)
            .unwrap();
    let no_name =
        resolve_invocation(&args(&["log", "--oneline"]), &config, inside, TPARENT, "/c", false).unwrap();
    assert_eq!(redundant, (0, 1));
    assert_eq!(no_name, (0, 0));
}

#[test]
fn explicit_name_wins_over_the_sidecar_containing_cwd() {
    let config = parent_with(&["sidecar", "second"]);
    let r = resolve_invocation(
        &args(&["second", "rev-parse", "--show-toplevel"]),
        &config,
        "/tmp/t/parent/sidecar",
        TPARENT,
        "/c",
        false,
    )
    .unwrap();
    assert_eq!(config.sidecars[r.0].0, "second");
    assert_eq!(r.1, 1);
}

#[test]
fn passthrough_without_name_outside_a_sidecar_fails() {
    let config = parent_with(&["sidecar"]);
    let err = resolve_invocation(&args(&["status"]), &config, TPARENT, TPARENT, "/c", false).unwrap_err();
    assert!(err.contains("not inside a sidecar"));
    assert!(err.contains("usage: git sidecar"));
}

#[test]
fn windows_working_directory_resolves_through_backslashes() {
    let config = sidecars();
    let hit = sidecar_for_cwd("C:\\work\\project\\bar\\src", "C:\\work\\project", &config, true);
    assert_eq!(hit, Some(1));
    assert_eq!(
        sidecar_for_cwd("C:\\work\\project\\bar\\src", "C:\\work\\project", &config, false),
        None
    );
}
