//! `git sidecar [<name>] <git-command> [args...]`: which sidecar a command
//! is for, and where the git arguments start.

use vstd::prelude::*;

use crate::config::{index_of_name, lemma_index_of_name, Config, SidecarView};
use crate::paths::{
    join_path, join_path_exec, model_path, norm_comps, norm_parts, normalized, path_is_abs,
    path_prefix, path_prefix_exec, render_parts, to_model,
};
use crate::text::{chars_of, concat3, owned, push_str, string_of, views};

verus! {

/// How the command is used.
pub const USAGE: &'static str = "usage: git sidecar [<sidecar-name>] <git-command> [args...]\n(the name may be omitted when run from inside a sidecar's directory)";

/// The normalized mapping directory of a sidecar: the mapping joined to the
/// normalized parent repository, normalized again.
pub open spec fn mapping_dir(parent: Seq<char>, mapping: Seq<char>, windows: bool) -> (
    bool,
    Seq<Seq<char>>,
) {
    let j = join_path(normalized(model_path(parent, windows)), model_path(mapping, windows));
    (path_is_abs(j), norm_comps(j))
}

/// The working directory lies in the sidecar's mapping directory.
pub open spec fn cwd_in_mapping(
    cwd: Seq<char>,
    parent: Seq<char>,
    mapping: Seq<char>,
    windows: bool,
) -> bool {
    let md = mapping_dir(parent, mapping, windows);
    let c = model_path(cwd, windows);
    path_prefix(path_is_abs(c), norm_comps(c), md.0, md.1)
}

/// The number of components of the mapping directory (its root counted).
pub open spec fn mapping_depth(parent: Seq<char>, mapping: Seq<char>, windows: bool) -> int {
    let md = mapping_dir(parent, mapping, windows);
    (if md.0 {
        1int
    } else {
        0int
    }) + md.1.len()
}

/// Among the first `n` entries, the position of the deepest one whose
/// mapping holds the working directory, the later one winning a tie.
pub open spec fn deepest_match(
    cwd: Seq<char>,
    parent: Seq<char>,
    es: Seq<(Seq<char>, SidecarView)>,
    n: int,
    windows: bool,
) -> Option<int>
    decreases n,
{
    if n <= 0 {
        None
    } else {
        let p = deepest_match(cwd, parent, es, n - 1, windows);
        let m = es[n - 1].1.mapping;
        if !cwd_in_mapping(cwd, parent, m, windows) {
            p
        } else {
            match p {
                None => Some(n - 1),
                Some(j) => if mapping_depth(parent, m, windows) >= mapping_depth(
                    parent,
                    es[j].1.mapping,
                    windows,
                ) {
                    Some(n - 1)
                } else {
                    Some(j)
                },
            }
        }
    }
}

/// The working directory lies in the parent repository.
pub open spec fn cwd_in_parent(cwd: Seq<char>, parent: Seq<char>, windows: bool) -> bool {
    let c = model_path(cwd, windows);
    let p = model_path(parent, windows);
    path_prefix(path_is_abs(c), norm_comps(c), path_is_abs(p), norm_comps(p))
}

/// What `sidecar_for_cwd` returns.
pub open spec fn sidecar_for(
    cwd: Seq<char>,
    parent: Seq<char>,
    es: Seq<(Seq<char>, SidecarView)>,
    windows: bool,
) -> Option<int> {
    if !cwd_in_parent(cwd, parent, windows) {
        None
    } else {
        deepest_match(cwd, parent, es, es.len() as int, windows)
    }
}

/// The deepest match among the first `n` entries holds the working
/// directory and is at least as deep as every other entry that does.
pub proof fn lemma_deepest_match(
    cwd: Seq<char>,
    parent: Seq<char>,
    es: Seq<(Seq<char>, SidecarView)>,
    n: int,
    windows: bool,
)
    requires
        0 <= n <= es.len(),
    ensures
        match deepest_match(cwd, parent, es, n, windows) {
            Some(i) => 0 <= i < n && cwd_in_mapping(cwd, parent, es[i].1.mapping, windows)
                && forall|k: int|
                0 <= k < n && cwd_in_mapping(cwd, parent, es[k].1.mapping, windows)
                    ==> mapping_depth(parent, es[k].1.mapping, windows) <= mapping_depth(
                    parent,
                    es[i].1.mapping,
                    windows,
                ),
            None => forall|k: int|
                0 <= k < n ==> !cwd_in_mapping(cwd, parent, es[k].1.mapping, windows),
        },
    decreases n,
{
    if n > 0 {
        lemma_deepest_match(cwd, parent, es, n - 1, windows);
    }
}

/// The configured sidecar whose mapping directory contains `cwd`, if any.
/// The deepest matching mapping wins (the later entry on a tie), so
/// behavior stays sane even if mappings nest. On Windows (`windows`) a `\`
/// in any of the paths separates components as `/` does.
pub fn sidecar_for_cwd(cwd: &str, parent_repo: &str, config: &Config, windows: bool) -> (res:
    Option<usize>)
    ensures
        match res {
            Some(i) => sidecar_for(cwd@, parent_repo@, config@, windows) == Some(i as int),
            None => sidecar_for(cwd@, parent_repo@, config@, windows) is None,
        },
        match res {
            Some(i) => i < config@.len() && cwd_in_mapping(
                cwd@,
                parent_repo@,
                config@[i as int].1.mapping,
                windows,
            ) && forall|k: int|
                0 <= k < config@.len() && cwd_in_mapping(
                    cwd@,
                    parent_repo@,
                    config@[k].1.mapping,
                    windows,
                ) ==> mapping_depth(parent_repo@, config@[k].1.mapping, windows) <= mapping_depth(
                    parent_repo@,
                    config@[i as int].1.mapping,
                    windows,
                ),
            None => !cwd_in_parent(cwd@, parent_repo@, windows) || forall|k: int|
                0 <= k < config@.len() ==> !cwd_in_mapping(
                    cwd@,
                    parent_repo@,
                    config@[k].1.mapping,
                    windows,
                ),
        },
{
    proof {
        lemma_deepest_match(cwd@, parent_repo@, config@, config@.len() as int, windows);
    }
    let cv = to_model(cwd, windows);
    let pv = to_model(parent_repo, windows);
    let (ca, cc) = norm_parts(cv.as_slice());
    let (pa, pc) = norm_parts(pv.as_slice());
    if !path_prefix_exec(ca, cc.as_slice(), pa, pc.as_slice()) {
        return None;
    }
    let parent_text = render_parts(pa, pc.as_slice());
    let mut best: Option<usize> = None;
    let mut best_depth: u128 = 0;
    let mut i: usize = 0;
    while i < config.sidecars.len()
        invariant
            i <= config@.len(),
            config@.len() == config.sidecars@.len(),
            parent_text@ == normalized(model_path(parent_repo@, windows)),
            ca == path_is_abs(model_path(cwd@, windows)),
            views(cc@) == norm_comps(model_path(cwd@, windows)),
            match best {
                Some(j) => deepest_match(cwd@, parent_repo@, config@, i as int, windows) == Some(
                    j as int,
                ) && j < i && best_depth == mapping_depth(
                    parent_repo@,
                    config@[j as int].1.mapping,
                    windows,
                ),
                None => deepest_match(cwd@, parent_repo@, config@, i as int, windows) is None,
            },
        decreases config@.len() - i,
    {
        let mv = to_model(config.sidecars[i].1.mapping.as_str(), windows);
        assert(config@[i as int].1.mapping == config.sidecars@[i as int].1.mapping@);
        let joined = join_path_exec(parent_text.as_slice(), mv.as_slice());
        let (ma, mc) = norm_parts(joined.as_slice());
        if path_prefix_exec(ca, cc.as_slice(), ma, mc.as_slice()) {
            let depth: u128 = if ma {
                1 + mc.len() as u128
            } else {
                mc.len() as u128
            };
            match best {
                None => {
                    best = Some(i);
                    best_depth = depth;
                },
                Some(_) => {
                    if depth >= best_depth {
                        best = Some(i);
                        best_depth = depth;
                    }
                },
            }
        }
        i += 1;
    }
    best
}

/// The error when neither a name nor the working directory picks a
/// sidecar.
pub open spec fn no_sidecar_error(first: Seq<char>, config_path: Seq<char>) -> Seq<char> {
    "sidecar '"@ + first + "' not found in "@ + config_path
        + " and the current directory is not inside a sidecar\n"@ + USAGE@
}

/// The views of a sequence of strings.
pub open spec fn arg_views(args: Seq<String>) -> Seq<Seq<char>> {
    Seq::new(args.len(), |i: int| args[i]@)
}

/// What `resolve_invocation` returns: the sidecar and the index where the
/// git arguments start. A configured name in first place always wins (and
/// needs a git command after it); otherwise the sidecar holding the working
/// directory takes all the arguments.
pub open spec fn invocation_for(
    args: Seq<Seq<char>>,
    es: Seq<(Seq<char>, SidecarView)>,
    cwd: Seq<char>,
    parent: Seq<char>,
    config_path: Seq<char>,
    windows: bool,
) -> Result<(int, int), Seq<char>> {
    if args.len() == 0 {
        Err(USAGE@)
    } else if index_of_name(es, args[0]) >= 0 {
        if args.len() == 1 {
            Err(USAGE@)
        } else {
            Ok((index_of_name(es, args[0]), 1))
        }
    } else {
        match sidecar_for(cwd, parent, es, windows) {
            Some(i) => Ok((i, 0)),
            None => Err(no_sidecar_error(args[0], config_path)),
        }
    }
}

/// Picks the sidecar a passthrough command is for and where the git
/// arguments start: `args[0]` is either a sidecar nickname (the remaining
/// arguments are the git command) or, when run from inside a sidecar's
/// mapping directory, the start of the git command itself.
pub fn resolve_invocation(
    args: &[String],
    config: &Config,
    cwd: &str,
    parent_repo: &str,
    config_path: &str,
    windows: bool,
) -> (res: Result<(usize, usize), String>)
    ensures
        match res {
            Ok((i, start)) => invocation_for(
                arg_views(args@),
                config@,
                cwd@,
                parent_repo@,
                config_path@,
                windows,
            ) == Ok::<(int, int), Seq<char>>((i as int, start as int)),
            Err(e) => invocation_for(
                arg_views(args@),
                config@,
                cwd@,
                parent_repo@,
                config_path@,
                windows,
            ) == Err::<(int, int), Seq<char>>(e@),
        },
{
    if args.len() == 0 {
        return Err(owned(USAGE));
    }
    let first = args[0].as_str();
    assert(arg_views(args@)[0] == first@);
    match config.position(first) {
        Some(i) => {
            if args.len() == 1 {
                return Err(owned(USAGE));
            }
            Ok((i, 1))
        },
        None => match sidecar_for_cwd(cwd, parent_repo, config, windows) {
            Some(i) => Ok((i, 0)),
            None => {
                let fv = chars_of(first);
                let mut msg = chars_of("sidecar '");
                push_str(&mut msg, first);
                push_str(&mut msg, "' not found in ");
                push_str(&mut msg, config_path);
                push_str(&mut msg, " and the current directory is not inside a sidecar\n");
                push_str(&mut msg, USAGE);
                Err(string_of(msg.as_slice()))
            },
        },
    }
}

/// An explicit name always wins over the current directory: a configured
/// nickname in first place, followed by a git command, picks that sidecar
/// wherever the command is run; without a configured name the sidecar
/// holding the working directory is used, and outside every sidecar the
/// call is refused.
pub proof fn law_explicit_name_wins(
    args: Seq<Seq<char>>,
    es: Seq<(Seq<char>, SidecarView)>,
    cwd: Seq<char>,
    parent: Seq<char>,
    config_path: Seq<char>,
    windows: bool,
)
    requires
        args.len() > 0,
    ensures
        index_of_name(es, args[0]) >= 0 && args.len() > 1 ==> invocation_for(
            args,
            es,
            cwd,
            parent,
            config_path,
            windows,
        ) == Ok::<(int, int), Seq<char>>((index_of_name(es, args[0]), 1)),
        index_of_name(es, args[0]) < 0 ==> match sidecar_for(cwd, parent, es, windows) {
            Some(i) => invocation_for(args, es, cwd, parent, config_path, windows) == Ok::<
                (int, int),
                Seq<char>,
            >((i, 0)),
            None => invocation_for(args, es, cwd, parent, config_path, windows) is Err,
        },
{
}

/// The refusal when the sidecar's directory is missing.
pub open spec fn not_present_error(name: Seq<char>, dir: Seq<char>) -> Seq<char> {
    "sidecar '"@ + name + "' is not present at "@ + dir + "; run 'git sidecar sync'"@
}

/// A passthrough command needs the sidecar's directory.
pub fn check_present(name: &str, dir: &str, dir_is_dir: bool) -> (res: Result<(), String>)
    ensures
        dir_is_dir <==> res is Ok,
        res is Err ==> res->Err_0@ == not_present_error(name@, dir@),
{
    if dir_is_dir {
        return Ok(());
    }
    let mut msg = chars_of("sidecar '");
    push_str(&mut msg, name);
    push_str(&mut msg, "' is not present at ");
    push_str(&mut msg, dir);
    push_str(&mut msg, "; run 'git sidecar sync'");
    Err(string_of(msg.as_slice()))
}

/// The refusal when a sidecar has no git directory at all.
pub open spec fn no_git_dir_error(name: Seq<char>, dotgit: Seq<char>, gitdir: Seq<char>) -> Seq<char> {
    "sidecar '"@ + name + "' has no git directory: neither "@ + dotgit + " nor "@ + gitdir
        + " exists; run 'git sidecar sync'"@
}

/// For a sidecar without `.git` in its directory (the unified layout), git
/// is pointed at the external git dir, which must be valid.
pub fn check_external_git_dir(name: &str, dotgit: &str, gitdir: &str, gitdir_valid: bool) -> (res:
    Result<(), String>)
    ensures
        gitdir_valid <==> res is Ok,
        res is Err ==> res->Err_0@ == no_git_dir_error(name@, dotgit@, gitdir@),
{
    if gitdir_valid {
        return Ok(());
    }
    let mut msg = chars_of("sidecar '");
    push_str(&mut msg, name);
    push_str(&mut msg, "' has no git directory: neither ");
    push_str(&mut msg, dotgit);
    push_str(&mut msg, " nor ");
    push_str(&mut msg, gitdir);
    push_str(&mut msg, " exists; run 'git sidecar sync'");
    Err(string_of(msg.as_slice()))
}

} // verus!
