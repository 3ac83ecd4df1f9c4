//! `git sidecar remove`: the checks made before the config is rewritten and
//! before a sidecar's directory is deleted.

use vstd::prelude::*;

use crate::config::{index_of_name, lemma_index_of_name, Config};
use crate::paths::{
    join_path, join_path_exec, model_path, native_path, norm_comps, norm_parts, path_is_abs,
    path_prefix, path_prefix_exec, render, render_parts, to_model, to_native,
};
use crate::text::{chars_of, concat3, eq_chars, push_all, push_str, string_of, views};

verus! {

/// The normalized directory a mapping names under the parent repository
/// (on Windows, `\` read as `/`).
pub open spec fn deletion_dir(parent: Seq<char>, mapping: Seq<char>, windows: bool) -> (
    bool,
    Seq<Seq<char>>,
) {
    let j = join_path(model_path(parent, windows), model_path(mapping, windows));
    (path_is_abs(j), norm_comps(j))
}

/// The parent repository lexically contains the directory a mapping names,
/// and is not that directory itself.
pub open spec fn strictly_inside(parent: Seq<char>, mapping: Seq<char>, windows: bool) -> bool {
    let d = deletion_dir(parent, mapping, windows);
    let p = model_path(parent, windows);
    path_prefix(d.0, d.1, path_is_abs(p), norm_comps(p)) && !(d.0 == path_is_abs(p) && d.1
        == norm_comps(p))
}

/// What `deletion_target` returns: the normalized mapping directory, written
/// with the platform's separator, when it lies strictly inside the parent
/// repository, else the refusal.
pub open spec fn deletion_target_of(parent: Seq<char>, mapping: Seq<char>, windows: bool) -> Result<
    Seq<char>,
    Seq<char>,
> {
    let d = deletion_dir(parent, mapping, windows);
    let shown = native_path(render(d.0, d.1), windows);
    if !strictly_inside(parent, mapping, windows) {
        Err("refusing to delete "@ + shown + ": it is not inside the parent repository"@)
    } else {
        Ok(shown)
    }
}

/// The directory `git sidecar remove --delete` may delete for a mapping:
/// refused unless it lies strictly inside the parent repository.
pub fn deletion_target(parent_repo: &str, mapping: &str, windows: bool) -> (res: Result<
    String,
    String,
>)
    ensures
        match res {
            Ok(d) => deletion_target_of(parent_repo@, mapping@, windows) == Ok::<
                Seq<char>,
                Seq<char>,
            >(d@),
            Err(e) => deletion_target_of(parent_repo@, mapping@, windows) == Err::<
                Seq<char>,
                Seq<char>,
            >(e@),
        },
        res is Ok <==> strictly_inside(parent_repo@, mapping@, windows),
{
    let pv = to_model(parent_repo, windows);
    let mv = to_model(mapping, windows);
    let j = join_path_exec(pv.as_slice(), mv.as_slice());
    let (da, dc) = norm_parts(j.as_slice());
    let (pa, pc) = norm_parts(pv.as_slice());
    let rendered = render_parts(da, dc.as_slice());
    let shown = to_native(rendered.as_slice(), windows);
    let inside = path_prefix_exec(da, dc.as_slice(), pa, pc.as_slice());
    let same = da == pa && same_components(dc.as_slice(), pc.as_slice());
    if !inside || same {
        let mut msg = chars_of("refusing to delete ");
        push_all(&mut msg, shown.as_slice());
        push_str(&mut msg, ": it is not inside the parent repository");
        return Err(string_of(msg.as_slice()));
    }
    Ok(string_of(shown.as_slice()))
}

/// Whether two component lists are equal.
fn same_components(a: &[Vec<char>], b: &[Vec<char>]) -> (res: bool)
    ensures
        res == (views(a@) == views(b@)),
{
    if a.len() != b.len() {
        assert(views(a@).len() != views(b@).len());
        return false;
    }
    let mut i: usize = 0;
    while i < a.len()
        invariant
            i <= a@.len(),
            a@.len() == b@.len(),
            forall|k: int| 0 <= k < i ==> a@[k]@ == b@[k]@,
        decreases a@.len() - i,
    {
        if !eq_chars(a[i].as_slice(), b[i].as_slice()) {
            assert(views(a@)[i as int] != views(b@)[i as int]);
            return false;
        }
        i += 1;
    }
    assert(views(a@) =~= views(b@));
    true
}

/// The refusal when a rewritten config does not drop exactly one sidecar.
pub open spec fn removal_error(name: Seq<char>) -> Seq<char> {
    "refusing to write config: removal would not drop exactly sidecar '"@ + name + "'"@
}

/// Checks that the config parsed from the rewritten text has exactly one
/// sidecar fewer than before and no longer holds `name`.
pub fn check_removal(old: &Config, new: &Config, name: &str) -> (res: Result<(), String>)
    requires
        old@.len() > 0,
    ensures
        match res {
            Ok(()) => new@.len() == old@.len() - 1 && index_of_name(new@, name@) == -1,
            Err(e) => !(new@.len() == old@.len() - 1 && index_of_name(new@, name@) == -1) && e@
                == removal_error(name@),
        },
{
    if new.len() != old.len() - 1 || new.position(name).is_some() {
        let nv = chars_of(name);
        return Err(concat3(
            "refusing to write config: removal would not drop exactly sidecar '",
            nv.as_slice(),
            "'",
        ));
    }
    Ok(())
}

/// Whether `remove` (without `--delete`) moves the external git dir back
/// into the mapping directory: the directory is there, holds no `.git`,
/// and the external git dir is valid, so what remains is an ordinary
/// standalone repository.
pub fn moves_git_dir_back(dir_is_dir: bool, dotgit_exists: bool, gitdir_valid: bool) -> (res: bool)
    ensures
        res == (dir_is_dir && !dotgit_exists && gitdir_valid),
{
    dir_is_dir && !dotgit_exists && gitdir_valid
}

} // verus!
