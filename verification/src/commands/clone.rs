//! `git sidecar clone`: the nickname, target and mapping of a new sidecar,
//! and the conflicts that make the command refuse before anything changes.

use vstd::prelude::*;

use crate::config::{
    index_of_name, is_reserved, is_reserved_exec, law_reserved_nicknames_are_subcommand_names,
    subcommand_name, Config, SidecarView,
};
use crate::layout::DiskState;
use crate::paths::{
    join_on, join_on_exec, mapping_between, mapping_for, model_path, native_path, to_model,
    to_native,
};
use crate::remote::{repo_name_from_url, repo_name_of};
use crate::text::{
    chars_of, concat3, eq_chars, owned, push_str, string_of, trim, trim_end_ch, trim_end_char,
    trim_ws,
};

verus! {

/// The refusal for a clone target in the given state, if any.
pub open spec fn clone_target_error(
    nickname: Seq<char>,
    target: Seq<char>,
    gitdir: Seq<char>,
    state: DiskState,
) -> Option<Seq<char>> {
    match state {
        DiskState::Missing => None,
        DiskState::Standalone | DiskState::Unified => Some(
            target + " already contains a git repository"@,
        ),
        DiskState::MissingWorktree => Some(
            "a leftover git dir for '"@ + nickname + "' already exists at "@ + gitdir
                + "; remove it first"@,
        ),
        DiskState::NotARepo => Some(target + " exists and is not empty"@),
        DiskState::NotADirectory => Some(target + " exists and is not a directory"@),
    }
}

/// Refuses to clone into a target that already holds something: only a
/// missing or empty directory with no leftover external git dir will do.
pub fn ensure_target_is_cloneable(nickname: &str, target: &str, gitdir: &str, state: DiskState) -> (res:
    Result<(), String>)
    ensures
        match res {
            Ok(()) => clone_target_error(nickname@, target@, gitdir@, state) is None,
            Err(e) => clone_target_error(nickname@, target@, gitdir@, state) == Some(e@),
        },
{
    match state {
        DiskState::Missing => Ok(()),
        DiskState::Standalone | DiskState::Unified => {
            let mut msg = chars_of(target);
            push_str(&mut msg, " already contains a git repository");
            Err(string_of(msg.as_slice()))
        },
        DiskState::MissingWorktree => {
            let mut msg = chars_of("a leftover git dir for '");
            push_str(&mut msg, nickname);
            push_str(&mut msg, "' already exists at ");
            push_str(&mut msg, gitdir);
            push_str(&mut msg, "; remove it first");
            Err(string_of(msg.as_slice()))
        },
        DiskState::NotARepo => {
            let mut msg = chars_of(target);
            push_str(&mut msg, " exists and is not empty");
            Err(string_of(msg.as_slice()))
        },
        DiskState::NotADirectory => {
            let mut msg = chars_of(target);
            push_str(&mut msg, " exists and is not a directory");
            Err(string_of(msg.as_slice()))
        },
    }
}

/// The text of an optional string.
pub open spec fn opt_text(o: Option<&str>) -> Option<Seq<char>> {
    match o {
        Some(s) => Some(s@),
        None => None,
    }
}

/// What `clone_names` returns: the nickname (given, or the repository name
/// of the URL), the target directory (the given directory, or the repository
/// name, resolved against the working directory) and its mapping. Paths are
/// read in model form (on Windows `\` is a separator too, and a directory
/// with a drive prefix stands on its own); the target and a refusal are
/// written with the platform's separator.
pub open spec fn clone_names_of(
    repo: Seq<char>,
    directory: Option<Seq<char>>,
    name: Option<Seq<char>>,
    cwd: Seq<char>,
    parent: Seq<char>,
    windows: bool,
) -> Result<(Seq<char>, Seq<char>, Seq<char>), Seq<char>> {
    let nick = match name {
        Some(n) => Ok(n),
        None => repo_name_of(repo),
    };
    match nick {
        Err(e) => Err(e),
        Ok(nick) => if trim(nick).len() == 0 {
            Err("sidecar nickname cannot be empty"@)
        } else if is_reserved(nick) {
            Err("sidecar nickname '"@ + nick + "' is reserved"@)
        } else {
            let dir = match directory {
                Some(d) => Ok(d),
                None => repo_name_of(repo),
            };
            match dir {
                Err(e) => Err(e),
                Ok(dir) => {
                    let target = join_on(model_path(cwd, windows), model_path(dir, windows), windows);
                    match mapping_for(model_path(parent, windows), target) {
                        Err(e) => Err(native_path(e, windows)),
                        Ok(m) => Ok((nick, native_path(target, windows), m)),
                    }
                },
            }
        },
    }
}

/// The nickname, target directory and mapping of a sidecar about to be
/// cloned from `repo`.
pub fn clone_names(
    repo: &str,
    directory: Option<&str>,
    name: Option<&str>,
    cwd: &str,
    parent_repo: &str,
    windows: bool,
) -> (res: Result<(String, String, String), String>)
    ensures
        match res {
            Ok((n, t, m)) => clone_names_of(
                repo@,
                opt_text(directory),
                opt_text(name),
                cwd@,
                parent_repo@,
                windows,
            ) == Ok::<(Seq<char>, Seq<char>, Seq<char>), Seq<char>>((n@, t@, m@)),
            Err(e) => clone_names_of(
                repo@,
                opt_text(directory),
                opt_text(name),
                cwd@,
                parent_repo@,
                windows,
            ) == Err::<(Seq<char>, Seq<char>, Seq<char>), Seq<char>>(e@),
        },
{
    let nickname = match name {
        Some(n) => owned(n),
        None => match repo_name_from_url(repo) {
            Ok(n) => n,
            Err(e) => return Err(e),
        },
    };
    let nv = chars_of(nickname.as_str());
    let nt = trim_ws(nv.as_slice());
    if nt.len() == 0 {
        return Err(owned("sidecar nickname cannot be empty"));
    }
    if is_reserved_exec(nickname.as_str()) {
        return Err(concat3("sidecar nickname '", nv.as_slice(), "' is reserved"));
    }
    let dir = match directory {
        Some(d) => owned(d),
        None => match repo_name_from_url(repo) {
            Ok(d) => d,
            Err(e) => return Err(e),
        },
    };
    let cv = to_model(cwd, windows);
    let dv = to_model(dir.as_str(), windows);
    let target = join_on_exec(cv.as_slice(), dv.as_slice(), windows);
    let pv = to_model(parent_repo, windows);
    let mapping = match mapping_between(pv.as_slice(), target.as_slice()) {
        Ok(m) => m,
        Err(e) => {
            let n = to_native(e.as_slice(), windows);
            return Err(string_of(n.as_slice()));
        },
    };
    let shown = to_native(target.as_slice(), windows);
    Ok((nickname, string_of(shown.as_slice()), string_of(mapping.as_slice())))
}

/// The first entry at or after `i` whose mapping, without trailing slashes,
/// equals `m` without trailing slashes.
pub open spec fn first_mapping_clash(es: Seq<(Seq<char>, SidecarView)>, m: Seq<char>, i: int) -> Option<int>
    decreases es.len() - i,
{
    if i < 0 || i >= es.len() {
        None
    } else if trim_end_ch(es[i].1.mapping, '/') == trim_end_ch(m, '/') {
        Some(i)
    } else {
        first_mapping_clash(es, m, i + 1)
    }
}

/// What `check_clone_conflicts` returns: the nickname must be new, and no
/// sidecar may already use the mapping.
pub open spec fn clone_conflict(
    es: Seq<(Seq<char>, SidecarView)>,
    nickname: Seq<char>,
    mapping: Seq<char>,
    config_path: Seq<char>,
) -> Option<Seq<char>> {
    if index_of_name(es, nickname) >= 0 {
        Some("sidecar '"@ + nickname + "' already exists in "@ + config_path)
    } else {
        match first_mapping_clash(es, mapping, 0) {
            Some(k) => Some(
                "mapping '"@ + mapping + "' is already used by sidecar '"@ + es[k].0 + "'"@,
            ),
            None => None,
        }
    }
}

/// Refuses a nickname or mapping that an existing config already uses.
pub fn check_clone_conflicts(config: &Config, nickname: &str, mapping: &str, config_path: &str) -> (res:
    Result<(), String>)
    ensures
        match res {
            Ok(()) => clone_conflict(config@, nickname@, mapping@, config_path@) is None,
            Err(e) => clone_conflict(config@, nickname@, mapping@, config_path@) == Some(e@),
        },
{
    if config.position(nickname).is_some() {
        let mut msg = chars_of("sidecar '");
        push_str(&mut msg, nickname);
        push_str(&mut msg, "' already exists in ");
        push_str(&mut msg, config_path);
        return Err(string_of(msg.as_slice()));
    }
    let mv = chars_of(mapping);
    let mt = trim_end_char(mv.as_slice(), '/');
    let mut i: usize = 0;
    while i < config.sidecars.len()
        invariant
            i <= config@.len(),
            config@.len() == config.sidecars@.len(),
            mt@ == trim_end_ch(mapping@, '/'),
            index_of_name(config@, nickname@) == -1,
            first_mapping_clash(config@, mapping@, 0) == first_mapping_clash(
                config@,
                mapping@,
                i as int,
            ),
        decreases config@.len() - i,
    {
        assert(config@[i as int] == (config.sidecars@[i as int].0@, config.sidecars@[i as int].1@));
        let ov = chars_of(config.sidecars[i].1.mapping.as_str());
        let ot = trim_end_char(ov.as_slice(), '/');
        if eq_chars(ot.as_slice(), mt.as_slice()) {
            let mut msg = chars_of("mapping '");
            push_str(&mut msg, mapping);
            push_str(&mut msg, "' is already used by sidecar '");
            push_str(&mut msg, config.sidecars[i].0.as_str());
            push_str(&mut msg, "'");
            return Err(string_of(msg.as_slice()));
        }
        i += 1;
    }
    Ok(())
}

/// Without a directory, a sidecar is cloned into the repository's name under
/// the working directory, whatever nickname it is given: the call gives what
/// naming that directory explicitly gives, and on success its target is the
/// working directory joined with the repository name.
pub proof fn law_directory_defaults_to_repo_name(
    repo: Seq<char>,
    name: Option<Seq<char>>,
    cwd: Seq<char>,
    parent: Seq<char>,
    windows: bool,
)
    requires
        repo_name_of(repo) is Ok,
    ensures
        clone_names_of(repo, None, name, cwd, parent, windows) == clone_names_of(
            repo,
            Some(repo_name_of(repo)->Ok_0),
            name,
            cwd,
            parent,
            windows,
        ),
        clone_names_of(repo, None, name, cwd, parent, windows) is Ok ==> clone_names_of(
            repo,
            None,
            name,
            cwd,
            parent,
            windows,
        )->Ok_0.1 == native_path(
            join_on(model_path(cwd, windows), model_path(repo_name_of(repo)->Ok_0, windows), windows),
            windows,
        ),
{
}

/// A given directory is where the sidecar goes, whatever its nickname: two
/// calls that differ only in the nickname, and both succeed, have the same
/// target and mapping.
pub proof fn law_target_does_not_depend_on_nickname(
    repo: Seq<char>,
    directory: Option<Seq<char>>,
    n1: Seq<char>,
    n2: Seq<char>,
    cwd: Seq<char>,
    parent: Seq<char>,
    windows: bool,
)
    requires
        clone_names_of(repo, directory, Some(n1), cwd, parent, windows) is Ok,
        clone_names_of(repo, directory, Some(n2), cwd, parent, windows) is Ok,
    ensures
        clone_names_of(repo, directory, Some(n1), cwd, parent, windows)->Ok_0.1 == clone_names_of(
            repo,
            directory,
            Some(n2),
            cwd,
            parent,
            windows,
        )->Ok_0.1,
        clone_names_of(repo, directory, Some(n1), cwd, parent, windows)->Ok_0.2 == clone_names_of(
            repo,
            directory,
            Some(n2),
            cwd,
            parent,
            windows,
        )->Ok_0.2,
        clone_names_of(repo, directory, Some(n1), cwd, parent, windows)->Ok_0.0 == n1,
{
}

/// Without a nickname, the sidecar is named after the repository: the call
/// gives what naming it so explicitly gives.
pub proof fn law_nickname_defaults_to_repo_name(
    repo: Seq<char>,
    directory: Option<Seq<char>>,
    cwd: Seq<char>,
    parent: Seq<char>,
    windows: bool,
)
    requires
        repo_name_of(repo) is Ok,
    ensures
        clone_names_of(repo, directory, None, cwd, parent, windows) == clone_names_of(
            repo,
            directory,
            Some(repo_name_of(repo)->Ok_0),
            cwd,
            parent,
            windows,
        ),
{
}

/// A blank nickname or a subcommand name is refused; a nickname that comes
/// out of a successful call is neither.
pub proof fn law_clone_refuses_unusable_nicknames(
    repo: Seq<char>,
    directory: Option<Seq<char>>,
    n: Seq<char>,
    cwd: Seq<char>,
    parent: Seq<char>,
    windows: bool,
)
    ensures
        trim(n).len() == 0 || subcommand_name(n) ==> clone_names_of(
            repo,
            directory,
            Some(n),
            cwd,
            parent,
            windows,
        ) is Err,
        clone_names_of(repo, directory, Some(n), cwd, parent, windows) is Ok ==> trim(n).len() > 0
            && !subcommand_name(n),
{
    law_reserved_nicknames_are_subcommand_names(n);
}

} // verus!
