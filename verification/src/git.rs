//! What the answers of the git queries mean: the repository root, the
//! origin URL and the git directory, from a query's exit status and output.

use vstd::prelude::*;

use crate::paths::{
    join_on, join_on_exec, join_path, join_path_exec, model_chars, model_path, native_path,
    to_native,
};
use crate::text::{chars_of, concat3, owned, push_all, push_str, string_of, trim, trim_ws};

verus! {

/// What `repo_root_from_output` returns.
pub open spec fn repo_root_of(success: bool, out: Seq<char>) -> Result<Seq<char>, Seq<char>> {
    if !success {
        Err("not inside a git repository"@)
    } else if trim(out).len() == 0 {
        Err("git did not report a repository root"@)
    } else {
        Ok(trim(out))
    }
}

/// Root of the nearest git repository, from the answer to
/// `git rev-parse --show-toplevel`.
pub fn repo_root_from_output(success: bool, stdout: &str) -> (res: Result<String, String>)
    ensures
        match res {
            Ok(r) => repo_root_of(success, stdout@) == Ok::<Seq<char>, Seq<char>>(r@),
            Err(e) => repo_root_of(success, stdout@) == Err::<Seq<char>, Seq<char>>(e@),
        },
{
    if !success {
        return Err(owned("not inside a git repository"));
    }
    let v = chars_of(stdout);
    let t = trim_ws(v.as_slice());
    if t.len() == 0 {
        return Err(owned("git did not report a repository root"));
    }
    Ok(string_of(t.as_slice()))
}

/// What `origin_from_output` returns.
pub open spec fn origin_of(repo: Seq<char>, success: bool, out: Seq<char>) -> Result<
    Seq<char>,
    Seq<char>,
> {
    if !success {
        Err(repo + " has no remote.origin.url; git-sidecar v1 config lookup requires one"@)
    } else if trim(out).len() == 0 {
        Err(repo + " has an empty remote.origin.url; git-sidecar v1 config lookup requires one"@)
    } else {
        Ok(trim(out))
    }
}

/// The repository's `remote.origin.url`, from the answer to
/// `git config --get remote.origin.url` asked in `repo`.
pub fn origin_from_output(repo: &str, success: bool, stdout: &str) -> (res: Result<String, String>)
    ensures
        match res {
            Ok(r) => origin_of(repo@, success, stdout@) == Ok::<Seq<char>, Seq<char>>(r@),
            Err(e) => origin_of(repo@, success, stdout@) == Err::<Seq<char>, Seq<char>>(e@),
        },
{
    if !success {
        let mut msg = chars_of(repo);
        push_str(&mut msg, " has no remote.origin.url; git-sidecar v1 config lookup requires one");
        return Err(string_of(msg.as_slice()));
    }
    let v = chars_of(stdout);
    let t = trim_ws(v.as_slice());
    if t.len() == 0 {
        let mut msg = chars_of(repo);
        push_str(
            &mut msg,
            " has an empty remote.origin.url; git-sidecar v1 config lookup requires one",
        );
        return Err(string_of(msg.as_slice()));
    }
    Ok(string_of(t.as_slice()))
}

/// What `git_dir_from_output` returns.
pub open spec fn git_dir_of(repo: Seq<char>, success: bool, out: Seq<char>, windows: bool) -> Result<
    Seq<char>,
    Seq<char>,
> {
    if !success {
        Err("failed to locate git directory for "@ + repo)
    } else if trim(out).len() == 0 {
        Err("git did not report a git directory for "@ + repo)
    } else {
        Ok(
            native_path(
                join_on(model_path(repo, windows), model_path(trim(out), windows), windows),
                windows,
            ),
        )
    }
}

/// The repository's (common) git directory, from the answer to
/// `git rev-parse --git-common-dir` asked in `repo`: a relative answer is
/// taken relative to `repo`. On Windows (`windows`) the path is written
/// with `\`, and an answer with a drive prefix stands on its own.
pub fn git_dir_from_output(repo: &str, success: bool, stdout: &str, windows: bool) -> (res: Result<
    String,
    String,
>)
    ensures
        match res {
            Ok(r) => git_dir_of(repo@, success, stdout@, windows) == Ok::<Seq<char>, Seq<char>>(
                r@,
            ),
            Err(e) => git_dir_of(repo@, success, stdout@, windows) == Err::<Seq<char>, Seq<char>>(
                e@,
            ),
        },
{
    let rv = chars_of(repo);
    if !success {
        let mut msg = chars_of("failed to locate git directory for ");
        push_all(&mut msg, rv.as_slice());
        return Err(string_of(msg.as_slice()));
    }
    let v = chars_of(stdout);
    let t = trim_ws(v.as_slice());
    if t.len() == 0 {
        let mut msg = chars_of("git did not report a git directory for ");
        push_all(&mut msg, rv.as_slice());
        return Err(string_of(msg.as_slice()));
    }
    let rm = model_chars(rv.as_slice(), windows);
    let tm = model_chars(t.as_slice(), windows);
    let p = join_on_exec(rm.as_slice(), tm.as_slice(), windows);
    let n = to_native(p.as_slice(), windows);
    Ok(string_of(n.as_slice()))
}

/// The exclude file of a git directory: `<git dir>/info/exclude`.
pub open spec fn exclude_path_of(git_dir: Seq<char>) -> Seq<char> {
    join_path(join_path(git_dir, "info"@), "exclude"@)
}

/// The exclude file of a git directory.
pub fn exclude_path_in(git_dir: &str) -> (res: String)
    ensures
        res@ == exclude_path_of(git_dir@),
{
    let g = chars_of(git_dir);
    let info = chars_of("info");
    let a = join_path_exec(g.as_slice(), info.as_slice());
    let ex = chars_of("exclude");
    let b = join_path_exec(a.as_slice(), ex.as_slice());
    string_of(b.as_slice())
}

} // verus!
