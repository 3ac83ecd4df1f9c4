use git_sidecar::commands::clone::{check_clone_conflicts, clone_names, ensure_target_is_cloneable};
use git_sidecar::commands::remove::{check_removal, deletion_target, moves_git_dir_back};
use git_sidecar::commands::passthrough::{check_external_git_dir, check_present};
use git_sidecar::commands::sync::{
    layout_change_needed, nothing_selected, outcome_of, plan_sync, present_mappings,
    select_sidecars, sync_preflight, sync_succeeded, without_config, SyncAction, SyncOutcome,
};
use git_sidecar::config::{
    check_config, config_with_sidecar, sidecar_config_snippet, Config, Sidecar,
};
use git_sidecar::git::{exclude_path_in, git_dir_from_output, origin_from_output, repo_root_from_output};
use git_sidecar::layout::DiskState;

fn sidecar(repo: &str, mapping: &str, standalone: bool) -> Sidecar {
    Sidecar {
        repo: repo.to_string(),
        mapping: mapping.to_string(),
        standalone,
    }
}

fn config(entries: &[(&str, &str, &str, bool)]) -> Config {
    let v = entries
        .iter()
        .map(|(n, r, m, s)| (n.to_string(), sidecar(r, m, *s)))
        .collect();
    check_config(Some(1), v).ok().unwrap()
}

const REPO: &str = "git@github.com:example/foo.git";

fn ok(s: &str) -> Result<String, String> {
    Ok(s.to_string())
}

// ----- sync -----

#[test]
fn without_a_config_a_named_sidecar_is_refused_and_otherwise_nothing_is_done() {
    assert_eq!(
        without_config(Some("foo"), "git@h:o/p.git", "/c/config.toml"),
        Err("sidecar 'foo' not found; no config at /c/config.toml".to_string())
    );
    assert_eq!(
        without_config(None, "git@h:o/p.git", "/c/config.toml"),
        Ok("no sidecars configured for git@h:o/p.git (/c/config.toml)".to_string())
    );
    assert_eq!(
        nothing_selected(Some("foo"), "git@h:o/p.git", "/c/config.toml"),
        Err("sidecar 'foo' not found in /c/config.toml".to_string())
    );
    assert_eq!(
        nothing_selected(None, "git@h:o/p.git", "/c/config.toml"),
        Ok("no sidecars configured for git@h:o/p.git (/c/config.toml)".to_string())
    );
}

#[test]
fn only_present_sidecars_keep_their_exclude_entries() {
    let c = config(&[("a", REPO, "a/", false), ("b", REPO, "b/", false), ("c", REPO, "c/", true)]);
    let selected = vec![2, 0, 1];
    let outcomes = vec![SyncOutcome::ok(true), SyncOutcome::failed(false), SyncOutcome::failed(true)];
    assert_eq!(present_mappings(&c, &selected, &outcomes), vec!["c/".to_string(), "b/".to_string()]);
    assert!(present_mappings(&c, &Vec::new(), &Vec::new()).is_empty());
}

#[test]
fn missing_sidecar_is_cloned_in_its_configured_layout() {
    let unified = sidecar(REPO, "foo/", false);
    let standalone = sidecar(REPO, "foo/", true);
    let none = Err("unused".to_string());
    assert_eq!(plan_sync(DiskState::Missing, &unified, false, &none), SyncAction::CloneUnified);
    assert_eq!(
        plan_sync(DiskState::Missing, &standalone, false, &none),
        SyncAction::CloneStandalone
    );
    assert_eq!(
        plan_sync(DiskState::MissingWorktree, &unified, false, &none),
        SyncAction::RestoreWorktree
    );
}

#[test]
fn old_layout_sidecar_is_relocated_out() {
    let unified = sidecar(REPO, "foo/", false);
    let origin = ok("https://github.com/example/foo");
    assert_eq!(
        plan_sync(DiskState::Standalone, &unified, false, &origin),
        SyncAction::RelocateOut
    );
}

#[test]
fn plain_sync_never_relocates_a_standalone_sidecar() {
    let remote = "/tmp/t/sidecar.git";
    let c = config(&[("sidecar", remote, "sidecar/", true)]);
    // `sync` and `sync sidecar` both select it
    assert_eq!(select_sidecars(&c, None), vec![0]);
    assert_eq!(select_sidecars(&c, Some("sidecar")), vec![0]);
    let s = &c.sidecars[0].1;
    let action = plan_sync(DiskState::Standalone, s, false, &ok(remote));
    assert_eq!(action, SyncAction::AlreadyPresent);
    assert_ne!(action, SyncAction::RelocateOut);
}

#[test]
fn synced_sidecars_are_left_alone() {
    let u = sidecar(REPO, "foo/", false);
    let s = sidecar(REPO, "foo/", true);
    let same = ok("https://github.com/example/foo");
    assert_eq!(plan_sync(DiskState::Unified, &u, false, &same), SyncAction::FinishDetach);
    assert_eq!(plan_sync(DiskState::Standalone, &s, false, &same), SyncAction::AlreadyPresent);
}

#[test]
fn forced_standalone_moves_a_unified_gitdir_back_in() {
    let s = sidecar(REPO, "foo/", true);
    let origin = ok(REPO);
    assert_eq!(plan_sync(DiskState::Unified, &s, true, &origin), SyncAction::RelocateIn);
    let u = sidecar(REPO, "foo/", false);
    assert_eq!(plan_sync(DiskState::Unified, &u, false, &origin), SyncAction::FinishDetach);
}

#[test]
fn a_foreign_or_unreadable_origin_is_skipped() {
    let u = sidecar(REPO, "foo/", false);
    assert_eq!(
        plan_sync(DiskState::Unified, &u, false, &ok("git@github.com:example/bar.git")),
        SyncAction::OriginMismatch
    );
    assert_eq!(
        plan_sync(DiskState::Standalone, &u, false, &Err("no origin".to_string())),
        SyncAction::OriginUnreadable
    );
    assert_eq!(
        plan_sync(DiskState::NotARepo, &u, false, &ok(REPO)),
        SyncAction::SkipNotARepo
    );
    assert_eq!(
        plan_sync(DiskState::NotADirectory, &u, false, &ok(REPO)),
        SyncAction::SkipNotADirectory
    );
}

#[test]
fn outcomes_report_success_and_presence() {
    assert_eq!(outcome_of(SyncAction::CloneUnified, true), SyncOutcome::ok(true));
    assert_eq!(outcome_of(SyncAction::CloneUnified, false), SyncOutcome::failed(false));
    assert_eq!(outcome_of(SyncAction::RelocateOut, false), SyncOutcome::failed(true));
    assert_eq!(outcome_of(SyncAction::AlreadyPresent, false), SyncOutcome::ok(true));
    assert_eq!(outcome_of(SyncAction::OriginMismatch, true), SyncOutcome::failed(true));
    assert_eq!(outcome_of(SyncAction::SkipNotARepo, true), SyncOutcome::failed(false));
}

#[test]
fn sync_standalone_and_unify_require_a_name() {
    for (standalone, unify) in [(true, false), (false, true)] {
        let err = sync_preflight(None, standalone, unify).unwrap_err();
        assert!(err.contains("requires a sidecar name"));
    }
    assert!(sync_preflight(Some("sidecar"), true, false).is_ok());
    assert!(sync_preflight(None, false, false).is_ok());
}

#[test]
fn sync_selects_the_named_sidecar_or_all_by_nickname() {
    let c = config(&[("zeta", REPO, "z/", false), ("alpha", REPO, "a/", false)]);
    assert_eq!(select_sidecars(&c, Some("zeta")), vec![0]);
    assert!(select_sidecars(&c, Some("nope")).is_empty());
    assert_eq!(select_sidecars(&c, None), vec![1, 0]);
}

#[test]
fn layout_change_is_needed_only_when_the_flag_differs() {
    let c = config(&[("foo", REPO, "foo/", false)]);
    assert_eq!(layout_change_needed(&c, "foo", true, "/c"), Ok(true));
    assert_eq!(layout_change_needed(&c, "foo", false, "/c"), Ok(false));
    assert_eq!(
        layout_change_needed(&c, "bar", true, "/c"),
        Err("sidecar 'bar' not found in /c".to_string())
    );
}

// ----- clone -----

#[test]
fn clone_target_must_be_missing_or_empty() {
    assert!(ensure_target_is_cloneable("x", "/p/x", "/g", DiskState::Missing).is_ok());
    assert_eq!(
        ensure_target_is_cloneable("x", "/p/x", "/g", DiskState::NotARepo),
        Err("/p/x exists and is not empty".to_string())
    );
    assert_eq!(
        ensure_target_is_cloneable("x", "/p/x", "/g", DiskState::Standalone),
        Err("/p/x already contains a git repository".to_string())
    );
    assert_eq!(
        ensure_target_is_cloneable("x", "/p/x", "/g", DiskState::MissingWorktree),
        Err("a leftover git dir for 'x' already exists at /g; remove it first".to_string())
    );
    assert_eq!(
        ensure_target_is_cloneable("x", "/p/x", "/g", DiskState::NotADirectory),
        Err("/p/x exists and is not a directory".to_string())
    );
}

#[test]
fn clone_names_derive_from_the_url() {
    assert_eq!(
        clone_names(REPO, None, None, "/p", "/p", false),
        Ok(("foo".to_string(), "/p/foo".to_string(), "foo/".to_string()))
    );
}

#[test]
fn clone_from_subdirectory_stores_mapping_relative_to_repo_root() {
    let remote = "/tmp/t/sidecar.git";
    let (nickname, target, mapping) = clone_names(
        remote,
        Some("vendor/fb"),
        Some("fb"),
        "/tmp/t/parent/sub",
        "/tmp/t/parent",
        false,
    )
    .ok()
    .unwrap();
    assert_eq!(nickname, "fb");
    assert_eq!(target, "/tmp/t/parent/sub/vendor/fb");
    assert_eq!(mapping, "sub/vendor/fb/");
    let config = config_with_sidecar(None, &sidecar_config_snippet(&nickname, remote, &mapping, false));
    assert!(config.contains("mapping = \"sub/vendor/fb/\""));
}

#[test]
fn clone_refuses_reserved_and_blank_nicknames() {
    assert_eq!(
        clone_names(REPO, None, Some("sync"), "/p", "/p", false),
        Err("sidecar nickname 'sync' is reserved".to_string())
    );
    assert_eq!(
        clone_names(REPO, None, Some(" "), "/p", "/p", false),
        Err("sidecar nickname cannot be empty".to_string())
    );
}

#[test]
fn clone_refuses_duplicate_nickname() {
    let remote = "/tmp/t/sidecar.git";
    let (nickname, _, mapping) = clone_names(remote, None, None, "/tmp/t/parent", "/tmp/t/parent", false)
        .ok()
        .unwrap();
    assert_eq!(nickname, "sidecar");
    let c = config(&[("sidecar", remote, "sidecar/", false)]);
    let err = check_clone_conflicts(&c, &nickname, &mapping, "/c/config.toml").unwrap_err();
    assert!(err.contains("sidecar 'sidecar' already exists"));
}

#[test]
fn clone_refuses_a_mapping_in_use() {
    let c = config(&[("foo", REPO, "foo/", false)]);
    assert_eq!(
        check_clone_conflicts(&c, "bar", "foo", "/c"),
        Err("mapping 'foo' is already used by sidecar 'foo'".to_string())
    );
    assert!(check_clone_conflicts(&c, "bar", "bar/", "/c").is_ok());
}

// ----- remove -----

#[test]
fn deletion_is_confined_to_the_parent_repository() {
    assert_eq!(deletion_target("/p", "foo/", false), Ok("/p/foo".to_string()));
    assert_eq!(
        deletion_target("/p", "../elsewhere", false),
        Err("refusing to delete /elsewhere: it is not inside the parent repository".to_string())
    );
    assert!(deletion_target("/p", "./", false).is_err());
    assert_eq!(deletion_target("C:\\p", "foo/", true), Ok("C:\\p\\foo".to_string()));
}

#[test]
fn clone_from_a_windows_subdirectory() {
    let (_, target, mapping) = clone_names(
        "/tmp/t/sidecar.git",
        Some("vendor\\fb"),
        Some("fb"),
        "C:\\t\\parent\\sub",
        "C:\\t\\parent",
        true,
    )
    .ok()
    .unwrap();
    assert_eq!(target, "C:\\t\\parent\\sub\\vendor\\fb");
    assert_eq!(mapping, "sub/vendor/fb/");
}

#[test]
fn clone_into_another_windows_drive_is_outside_the_parent() {
    assert_eq!(
        clone_names(
            "/tmp/t/sidecar.git",
            Some("D:\\x"),
            Some("fb"),
            "C:\\t\\parent",
            "C:\\t\\parent",
            true,
        ),
        Err("target directory D:\\x is outside the parent repository C:\\t\\parent".to_string())
    );
}

#[test]
fn removal_must_drop_exactly_the_named_sidecar() {
    let before = config(&[("foo", REPO, "foo/", false), ("bar", REPO, "bar/", false)]);
    let after = config(&[("bar", REPO, "bar/", false)]);
    assert!(check_removal(&before, &after, "foo").is_ok());
    assert_eq!(
        check_removal(&before, &before, "foo"),
        Err("refusing to write config: removal would not drop exactly sidecar 'foo'".to_string())
    );
}

// ----- git output -----

#[test]
fn git_outputs_are_trimmed_and_checked() {
    assert_eq!(repo_root_from_output(true, "/p\n"), Ok("/p".to_string()));
    assert_eq!(
        repo_root_from_output(false, ""),
        Err("not inside a git repository".to_string())
    );
    assert_eq!(origin_from_output("/p", true, " u \n"), Ok("u".to_string()));
    assert_eq!(
        origin_from_output("/p", false, ""),
        Err("/p has no remote.origin.url; git-sidecar v1 config lookup requires one".to_string())
    );
    assert_eq!(git_dir_from_output("/p", true, ".git\n", false), Ok("/p/.git".to_string()));
    assert_eq!(git_dir_from_output("/p", true, "/abs/.git\n", false), Ok("/abs/.git".to_string()));
    assert_eq!(
        git_dir_from_output("C:\\p", true, ".git\n", true),
        Ok("C:\\p\\.git".to_string())
    );
    assert_eq!(
        git_dir_from_output("C:\\p", true, "D:/w/.git\n", true),
        Ok("D:\\w\\.git".to_string())
    );
    assert_eq!(exclude_path_in("/p/.git"), "/p/.git/info/exclude");
}

#[test]
fn second_sync_after_a_clone_leaves_the_sidecar_alone() {
    let u = sidecar(REPO, "foo/", false);
    let first = plan_sync(DiskState::Missing, &u, false, &Err(String::new()));
    assert_eq!(first, SyncAction::CloneUnified);
    let second = plan_sync(DiskState::Unified, &u, false, &ok(REPO));
    assert_eq!(second, SyncAction::FinishDetach);
}

#[test]
fn second_sync_after_restoring_a_standalone_worktree_leaves_it_alone() {
    let st = sidecar(REPO, "foo/", true);
    let first = plan_sync(DiskState::MissingWorktree, &st, false, &Err(String::new()));
    assert_eq!(first, SyncAction::RestoreWorktree);
    let second = plan_sync(DiskState::Unified, &st, false, &ok(REPO));
    assert_eq!(second, SyncAction::AlreadyPresent);
    assert_eq!(outcome_of(second, true), SyncOutcome::ok(true));
}

#[test]
fn any_failed_step_or_exclude_failure_fails_the_run() {
    let good = vec![SyncOutcome::ok(true), SyncOutcome::ok(false)];
    assert!(sync_succeeded(&good, true));
    assert!(!sync_succeeded(&good, false));
    assert!(!sync_succeeded(&vec![SyncOutcome::ok(true), SyncOutcome::failed(true)], true));
    assert!(sync_succeeded(&Vec::new(), true));
}

#[test]
fn remove_moves_the_git_dir_back_only_for_a_unified_checkout() {
    assert!(moves_git_dir_back(true, false, true));
    assert!(!moves_git_dir_back(true, true, true));
    assert!(!moves_git_dir_back(false, false, true));
    assert!(!moves_git_dir_back(true, false, false));
}

#[test]
fn passthrough_needs_the_directory_and_a_git_dir() {
    assert!(check_present("s", "/p/s", true).is_ok());
    assert_eq!(
        check_present("s", "/p/s", false).unwrap_err(),
        "sidecar 's' is not present at /p/s; run 'git sidecar sync'"
    );
    assert!(check_external_git_dir("s", "/p/s/.git", "/g", true).is_ok());
    assert_eq!(
        check_external_git_dir("s", "/p/s/.git", "/g", false).unwrap_err(),
        "sidecar 's' has no git directory: neither /p/s/.git nor /g exists; run 'git sidecar sync'"
    );
}
