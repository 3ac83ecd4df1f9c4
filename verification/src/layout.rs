//! On-disk layout of a sidecar's git directory.
//!
//! Unified sidecars keep their git directory outside the mapping directory,
//! under `<parent git dir>/git-sidecar/<name>/gitdir`. With no `.git` inside
//! the mapping, git's upward repository discovery walks straight past the
//! sidecar to the parent, so bare `git` run inside a sidecar operates on the
//! parent repo. Standalone sidecars keep the traditional `<mapping>/.git`.
//!
//! This module decides what is on disk from facts gathered about it; the
//! filesystem itself is looked at by the caller.

use vstd::prelude::*;

use crate::paths::{
    join_path, join_path_exec, model_chars, model_path, norm_comps, norm_parts, path_is_abs,
    to_model,
};
use crate::text::{
    chars_of, copy_range, eq_chars, starts_with, starts_with_exec, string_of, trim, trim_ws, views,
};

verus! {

/// Directory in the parent's git directory that holds unified sidecars.
pub const GITDIRS_DIR_NAME: &'static str = "git-sidecar";

/// Leaf name of a unified sidecar's git directory.
pub const GITDIR_LEAF: &'static str = "gitdir";

/// What is physically on disk for one sidecar, given its mapping directory
/// and the external git-dir location its nickname maps to.
#[derive(Debug, Clone, Copy, PartialEq, Eq, Structural)]
pub enum DiskState {
    /// Mapping is missing or an empty directory, and there is no external
    /// git dir: clone into it.
    Missing,
    /// Mapping directory does not exist but a valid external git dir does:
    /// only the working tree needs restoring.
    MissingWorktree,
    /// Mapping holds its own `.git`: traditional (standalone / old) layout.
    Standalone,
    /// Mapping has no `.git` of its own and the external git dir is valid.
    Unified,
    /// Mapping is a non-empty directory with no git repository anywhere.
    NotARepo,
    /// Mapping exists but is not a directory.
    NotADirectory,
}

/// What the filesystem says about a sidecar's mapping directory and its
/// external git directory.
#[derive(Debug)]
pub struct DiskFacts {
    /// Something exists at the mapping path.
    pub dir_exists: bool,
    /// The mapping path is a directory.
    pub dir_is_dir: bool,
    /// `<mapping>/.git` exists.
    pub dotgit_exists: bool,
    /// `<mapping>/.git` is a regular file (a gitlink).
    pub dotgit_is_file: bool,
    /// The text of `<mapping>/.git`, when it could be read as a file.
    pub dotgit_content: Option<String>,
    /// The external git directory holds a `HEAD` file.
    pub gitdir_valid: bool,
    /// Whether the mapping directory is empty; `None` when it could not be
    /// listed.
    pub dir_empty: Option<bool>,
}

/// Where a unified sidecar's git directory lives, from the parent's git
/// directory and the sidecar's nickname.
pub open spec fn external_gitdir_of(common_dir: Seq<char>, name: Seq<char>) -> Seq<char> {
    join_path(join_path(join_path(common_dir, GITDIRS_DIR_NAME@), name), GITDIR_LEAF@)
}

/// `gitdir:`.
pub open spec fn gitdir_prefix() -> Seq<char> {
    "gitdir:"@
}

/// Whether the text of a `.git` file is a gitlink to `gitdir`: after trimming
/// it starts with `gitdir:`, and the rest, trimmed, names the same path as
/// `gitdir` once both are normalized lexically (on Windows, `\` read as
/// `/`).
pub open spec fn points_at(content: Seq<char>, gitdir: Seq<char>, windows: bool) -> bool {
    let t = trim(content);
    starts_with(t, gitdir_prefix()) && {
        let target = model_path(trim(t.skip(gitdir_prefix().len() as int)), windows);
        let g = model_path(gitdir, windows);
        path_is_abs(target) == path_is_abs(g) && norm_comps(target) == norm_comps(g)
    }
}

/// The text of an optional string.
pub open spec fn opt_string(o: Option<String>) -> Option<Seq<char>> {
    match o {
        Some(s) => Some(s@),
        None => None,
    }
}

/// What `disk_state` returns for the given facts.
pub open spec fn disk_state_of(f: DiskFacts, gitdir: Seq<char>, windows: bool) -> DiskState {
    if f.dir_exists && !f.dir_is_dir {
        DiskState::NotADirectory
    } else if f.dotgit_exists {
        if f.dotgit_is_file && (match opt_string(f.dotgit_content) {
            Some(c) => points_at(c, gitdir, windows),
            None => false,
        }) {
            // leftover gitlink from an interrupted migration
            DiskState::Unified
        } else {
            DiskState::Standalone
        }
    } else if f.gitdir_valid {
        if f.dir_exists {
            DiskState::Unified
        } else {
            DiskState::MissingWorktree
        }
    } else if !f.dir_exists {
        DiskState::Missing
    } else {
        match f.dir_empty {
            Some(true) => DiskState::Missing,
            _ => DiskState::NotARepo,
        }
    }
}

/// Where a unified sidecar's git directory lives, derived deterministically
/// from the parent's git directory (`git rev-parse --git-common-dir`) and
/// the sidecar's nickname.
pub fn external_gitdir(common_dir: &str, name: &str) -> (res: String)
    ensures
        res@ == external_gitdir_of(common_dir@, name@),
{
    let c = chars_of(common_dir);
    let d = chars_of(GITDIRS_DIR_NAME);
    let a = join_path_exec(c.as_slice(), d.as_slice());
    let n = chars_of(name);
    let b = join_path_exec(a.as_slice(), n.as_slice());
    let leaf = chars_of(GITDIR_LEAF);
    let r = join_path_exec(b.as_slice(), leaf.as_slice());
    string_of(r.as_slice())
}

/// Whether a `.git` file's text is a gitlink pointing at `gitdir`.
pub fn gitfile_points_at(content: &str, gitdir: &str, windows: bool) -> (res: bool)
    ensures
        res == points_at(content@, gitdir@, windows),
{
    let cv = chars_of(content);
    let t = trim_ws(cv.as_slice());
    let prefix = chars_of("gitdir:");
    if !starts_with_exec(t.as_slice(), prefix.as_slice()) {
        return false;
    }
    let rest = copy_range(t.as_slice(), prefix.len(), t.len());
    assert(rest@ =~= t@.skip(gitdir_prefix().len() as int));
    let trimmed = trim_ws(rest.as_slice());
    let target = model_chars(trimmed.as_slice(), windows);
    let gv = to_model(gitdir, windows);
    let (ta, tc) = norm_parts(target.as_slice());
    let (ga, gc) = norm_parts(gv.as_slice());
    if ta != ga || tc.len() != gc.len() {
        assert(ta != ga || views(tc@).len() != views(gc@).len());
        return false;
    }
    assert(points_at(content@, gitdir@, windows) == (views(tc@) == views(gc@)));
    let mut i: usize = 0;
    while i < tc.len()
        invariant
            points_at(content@, gitdir@, windows) == (views(tc@) == views(gc@)),
            i <= tc@.len(),
            tc@.len() == gc@.len(),
            forall|k: int| 0 <= k < i ==> tc@[k]@ == gc@[k]@,
        decreases tc@.len() - i,
    {
        if !eq_chars(tc[i].as_slice(), gc[i].as_slice()) {
            assert(views(tc@)[i as int] != views(gc@)[i as int]);
            return false;
        }
        i += 1;
    }
    assert(views(tc@) =~= views(gc@));
    true
}

/// Classifies a sidecar's on-disk state from the facts gathered about its
/// mapping directory and its external git directory.
/// On Windows (`windows`) a `\` in a path separates components as `/` does.
pub fn disk_state(facts: &DiskFacts, gitdir: &str, windows: bool) -> (res: DiskState)
    ensures
        res == disk_state_of(*facts, gitdir@, windows),
{
    if facts.dir_exists && !facts.dir_is_dir {
        return DiskState::NotADirectory;
    }
    if facts.dotgit_exists {
        let points = match &facts.dotgit_content {
            Some(c) => gitfile_points_at(c.as_str(), gitdir, windows),
            None => false,
        };
        if facts.dotgit_is_file && points {
            return DiskState::Unified;
        }
        return DiskState::Standalone;
    }
    if facts.gitdir_valid {
        return if facts.dir_exists {
            DiskState::Unified
        } else {
            DiskState::MissingWorktree
        };
    }
    if !facts.dir_exists {
        return DiskState::Missing;
    }
    match facts.dir_empty {
        Some(true) => DiskState::Missing,
        _ => DiskState::NotARepo,
    }
}

} // verus!
