//! `git sidecar sync`: which sidecars a run covers, what it does to each
//! one given what is on disk, and how each step is reported.

use vstd::prelude::*;

use crate::commands::list::names_of;
use crate::config::{index_of_name, Config, Sidecar, SidecarView};
use crate::exclude::str_views;
use crate::layout::DiskState;
use crate::order::{sorted_order, sorted_order_of};
use crate::remote::{same_remote, same_remote_spec};
use crate::text::{chars_of, owned, push_str, string_of, views};

verus! {

/// Result of processing one sidecar during sync: whether it completed
/// cleanly, and whether a git repository now exists for its mapping.
#[derive(Debug, Clone, Copy, PartialEq, Eq, Structural)]
pub struct SyncOutcome {
    pub ok: bool,
    pub present: bool,
}

impl SyncOutcome {
    /// A step that completed cleanly.
    pub fn ok(present: bool) -> (res: Self)
        ensures
            res == (SyncOutcome { ok: true, present }),
    {
        SyncOutcome { ok: true, present }
    }

    /// A step that failed or was skipped with a warning.
    pub fn failed(present: bool) -> (res: Self)
        ensures
            res == (SyncOutcome { ok: false, present }),
    {
        SyncOutcome { ok: false, present }
    }
}

/// What sync does for one sidecar.
#[derive(Debug, Clone, Copy, PartialEq, Eq, Structural)]
pub enum SyncAction {
    /// Clone into the unified layout.
    CloneUnified,
    /// Clone the traditional way, `.git` inside the mapping.
    CloneStandalone,
    /// Check the working tree out again from the external git dir.
    RestoreWorktree,
    /// Nothing to do.
    AlreadyPresent,
    /// Move the in-mapping `.git` out to the external location.
    RelocateOut,
    /// Move the external git dir back inside the mapping.
    RelocateIn,
    /// Remove a leftover gitlink and pin the work tree (unified layout).
    FinishDetach,
    /// The repository on disk has another origin: warn and skip.
    OriginMismatch,
    /// The repository on disk has no readable origin: warn and skip.
    OriginUnreadable,
    /// The mapping holds files but no repository: warn and skip.
    SkipNotARepo,
    /// The mapping is not a directory: warn and skip.
    SkipNotADirectory,
}

/// The origin as read from disk.
pub open spec fn origin_view(origin: Result<String, String>) -> Result<Seq<char>, Seq<char>> {
    match origin {
        Ok(s) => Ok(s@),
        Err(e) => Err(e@),
    }
}

/// The action for a repository already on disk once its origin is known:
/// a differing or unreadable origin stops everything else.
pub open spec fn origin_gate(
    origin: Result<Seq<char>, Seq<char>>,
    repo: Seq<char>,
    otherwise: SyncAction,
) -> SyncAction {
    match origin {
        Ok(actual) => if !same_remote_spec(actual, repo) {
            SyncAction::OriginMismatch
        } else {
            otherwise
        },
        Err(_) => SyncAction::OriginUnreadable,
    }
}

/// What `plan_sync` returns. The config decides the layout: a sidecar
/// marked standalone is never relocated unless `--standalone` forces the
/// git dir back inside.
pub open spec fn sync_action_of(
    state: DiskState,
    repo: Seq<char>,
    standalone: bool,
    force_standalone: bool,
    origin: Result<Seq<char>, Seq<char>>,
) -> SyncAction {
    match state {
        DiskState::Missing => if standalone {
            SyncAction::CloneStandalone
        } else {
            SyncAction::CloneUnified
        },
        DiskState::MissingWorktree => SyncAction::RestoreWorktree,
        DiskState::Standalone => origin_gate(
            origin,
            repo,
            if standalone {
                SyncAction::AlreadyPresent
            } else {
                SyncAction::RelocateOut
            },
        ),
        DiskState::Unified => origin_gate(
            origin,
            repo,
            if force_standalone {
                SyncAction::RelocateIn
            } else if standalone {
                SyncAction::AlreadyPresent
            } else {
                SyncAction::FinishDetach
            },
        ),
        DiskState::NotARepo => SyncAction::SkipNotARepo,
        DiskState::NotADirectory => SyncAction::SkipNotADirectory,
    }
}

/// Decides what sync does for one sidecar from its on-disk state, its
/// config entry, the `--standalone` flag and the origin read from the
/// repository on disk (consulted only when there is one).
pub fn plan_sync(
    state: DiskState,
    sidecar: &Sidecar,
    force_standalone: bool,
    origin: &Result<String, String>,
) -> (res: SyncAction)
    ensures
        res == sync_action_of(
            state,
            sidecar.repo@,
            sidecar.standalone,
            force_standalone,
            origin_view(*origin),
        ),
{
    let otherwise = match state {
        DiskState::Missing => {
            return if sidecar.standalone {
                SyncAction::CloneStandalone
            } else {
                SyncAction::CloneUnified
            };
        },
        DiskState::MissingWorktree => return SyncAction::RestoreWorktree,
        DiskState::NotARepo => return SyncAction::SkipNotARepo,
        DiskState::NotADirectory => return SyncAction::SkipNotADirectory,
        DiskState::Standalone => if sidecar.standalone {
            SyncAction::AlreadyPresent
        } else {
            SyncAction::RelocateOut
        },
        DiskState::Unified => if force_standalone {
            SyncAction::RelocateIn
        } else if sidecar.standalone {
            SyncAction::AlreadyPresent
        } else {
            SyncAction::FinishDetach
        },
    };
    match origin {
        Ok(actual) => if !same_remote(actual.as_str(), sidecar.repo.as_str()) {
            SyncAction::OriginMismatch
        } else {
            otherwise
        },
        Err(_) => SyncAction::OriginUnreadable,
    }
}

/// What `outcome_of` returns.
pub open spec fn outcome_for(action: SyncAction, step_ok: bool) -> SyncOutcome {
    match action {
        SyncAction::CloneUnified | SyncAction::CloneStandalone | SyncAction::RestoreWorktree => {
            if step_ok {
                SyncOutcome { ok: true, present: true }
            } else {
                SyncOutcome { ok: false, present: false }
            }
        },
        SyncAction::RelocateOut | SyncAction::RelocateIn | SyncAction::FinishDetach => {
            if step_ok {
                SyncOutcome { ok: true, present: true }
            } else {
                SyncOutcome { ok: false, present: true }
            }
        },
        SyncAction::AlreadyPresent => SyncOutcome { ok: true, present: true },
        SyncAction::OriginMismatch | SyncAction::OriginUnreadable => SyncOutcome {
            ok: false,
            present: true,
        },
        SyncAction::SkipNotARepo | SyncAction::SkipNotADirectory => SyncOutcome {
            ok: false,
            present: false,
        },
    }
}

/// How one sidecar's sync is reported, given whether its step (if it had
/// one) succeeded: a repository counts as present unless a clone or restore
/// failed or the mapping was skipped.
pub fn outcome_of(action: SyncAction, step_ok: bool) -> (res: SyncOutcome)
    ensures
        res == outcome_for(action, step_ok),
{
    match action {
        SyncAction::CloneUnified | SyncAction::CloneStandalone | SyncAction::RestoreWorktree => {
            if step_ok {
                SyncOutcome::ok(true)
            } else {
                SyncOutcome::failed(false)
            }
        },
        SyncAction::RelocateOut | SyncAction::RelocateIn | SyncAction::FinishDetach => {
            if step_ok {
                SyncOutcome::ok(true)
            } else {
                SyncOutcome::failed(true)
            }
        },
        SyncAction::AlreadyPresent => SyncOutcome::ok(true),
        SyncAction::OriginMismatch | SyncAction::OriginUnreadable => SyncOutcome::failed(true),
        SyncAction::SkipNotARepo | SyncAction::SkipNotADirectory => SyncOutcome::failed(false),
    }
}

/// A plain `sync` (without `--standalone`) never moves the git directory of
/// a sidecar marked standalone, and never clones one into the unified
/// layout.
pub proof fn law_plain_sync_keeps_standalone(
    state: DiskState,
    repo: Seq<char>,
    origin: Result<Seq<char>, Seq<char>>,
)
    ensures
        ({
            let a = sync_action_of(state, repo, true, false, origin);
            a != SyncAction::RelocateOut && a != SyncAction::RelocateIn && a
                != SyncAction::FinishDetach && a != SyncAction::CloneUnified
        }),
{
}

/// The origin check comes before anything else for a repository already on
/// disk (standalone or unified layout), whatever the config and the flag
/// say: a readable origin that is another remote than the configured one
/// skips the sidecar as a mismatch, and an unreadable origin skips it too;
/// only a matching origin lets sync go on to leave it alone or move it.
pub proof fn law_origin_is_checked_first(
    state: DiskState,
    repo: Seq<char>,
    standalone: bool,
    force_standalone: bool,
    origin: Result<Seq<char>, Seq<char>>,
)
    requires
        state == DiskState::Standalone || state == DiskState::Unified,
    ensures
        ({
            let a = sync_action_of(state, repo, standalone, force_standalone, origin);
            match origin {
                Ok(o) => !same_remote_spec(o, repo) <==> a == SyncAction::OriginMismatch,
                Err(_) => a == SyncAction::OriginUnreadable,
            }
        }),
        origin is Ok && same_remote_spec(origin->Ok_0, repo) ==> ({
            let a = sync_action_of(state, repo, standalone, force_standalone, origin);
            a != SyncAction::OriginMismatch && a != SyncAction::OriginUnreadable
        }),
{
}

/// The config decides the layout. Nothing on disk: clone, standalone or
/// unified as configured. Only the git dir left: restore the working tree.
/// A repository on disk whose origin matches: a standalone checkout is left
/// alone when so configured and moved out otherwise; a unified one is moved
/// back in under `--standalone`, left alone when configured standalone, and
/// otherwise has its work tree pinned. Files without a repository, or
/// something that is no directory, are skipped.
pub proof fn law_config_decides_the_layout(
    repo: Seq<char>,
    standalone: bool,
    force_standalone: bool,
    actual: Seq<char>,
    origin: Result<Seq<char>, Seq<char>>,
)
    requires
        same_remote_spec(actual, repo),
    ensures
        sync_action_of(DiskState::Missing, repo, standalone, force_standalone, origin) == if standalone {
            SyncAction::CloneStandalone
        } else {
            SyncAction::CloneUnified
        },
        sync_action_of(DiskState::MissingWorktree, repo, standalone, force_standalone, origin)
            == SyncAction::RestoreWorktree,
        sync_action_of(DiskState::Standalone, repo, standalone, force_standalone, Ok(actual))
            == if standalone {
            SyncAction::AlreadyPresent
        } else {
            SyncAction::RelocateOut
        },
        sync_action_of(DiskState::Unified, repo, standalone, force_standalone, Ok(actual))
            == if force_standalone {
            SyncAction::RelocateIn
        } else if standalone {
            SyncAction::AlreadyPresent
        } else {
            SyncAction::FinishDetach
        },
        sync_action_of(DiskState::NotARepo, repo, standalone, force_standalone, origin)
            == SyncAction::SkipNotARepo,
        sync_action_of(DiskState::NotADirectory, repo, standalone, force_standalone, origin)
            == SyncAction::SkipNotADirectory,
{
}

/// The layout a sidecar is left in once the planned step has succeeded.
pub open spec fn layout_after(action: SyncAction, before: DiskState) -> DiskState {
    match action {
        SyncAction::CloneUnified | SyncAction::RestoreWorktree | SyncAction::RelocateOut
        | SyncAction::FinishDetach => DiskState::Unified,
        SyncAction::CloneStandalone | SyncAction::RelocateIn => DiskState::Standalone,
        _ => before,
    }
}

/// The sidecar's layout on disk is the one its config entry calls for.
pub open spec fn settled(state: DiskState, standalone: bool) -> bool {
    if standalone {
        state == DiskState::Standalone
    } else {
        state == DiskState::Unified
    }
}

/// Whether a step moves, clones or checks out anything.
pub open spec fn changes_layout(action: SyncAction) -> bool {
    action == SyncAction::CloneUnified || action == SyncAction::CloneStandalone || action
        == SyncAction::RestoreWorktree || action == SyncAction::RelocateOut || action
        == SyncAction::RelocateIn
}

/// Running `sync` again on an already-synced sidecar is a no-op: when the
/// layout on disk is the one the config calls for and the repository's
/// origin is the configured remote, a plain `sync` neither clones, restores
/// nor relocates anything.
pub proof fn law_synced_sidecar_is_left_alone(
    state: DiskState,
    repo: Seq<char>,
    standalone: bool,
    actual: Seq<char>,
)
    requires
        settled(state, standalone),
        same_remote_spec(actual, repo),
    ensures
        !changes_layout(sync_action_of(state, repo, standalone, false, Ok(actual))),
{
}

/// Every step `sync` takes leaves the sidecar in the layout its config calls
/// for (`--standalone` marks the config standalone before the step is
/// planned, so the flag is only ever set together with the marking). The
/// one exception: a working tree restored from a surviving external git dir
/// is checked out in the unified layout even for a standalone sidecar.
pub proof fn law_sync_step_settles(
    state: DiskState,
    repo: Seq<char>,
    standalone: bool,
    force_standalone: bool,
    origin: Result<Seq<char>, Seq<char>>,
)
    requires
        force_standalone ==> standalone,
        !(state == DiskState::MissingWorktree && standalone),
    ensures
        ({
            let a = sync_action_of(state, repo, standalone, force_standalone, origin);
            changes_layout(a) ==> settled(layout_after(a, state), standalone)
        }),
{
}

/// The origin the next run reads once a planned step has succeeded: a fresh
/// clone's is the configured remote itself, a restored working tree's is
/// that of the surviving git dir, and any other step keeps the repository
/// whose origin was read.
pub open spec fn origin_after(
    action: SyncAction,
    repo: Seq<char>,
    origin: Result<Seq<char>, Seq<char>>,
    restored_origin: Result<Seq<char>, Seq<char>>,
) -> Result<Seq<char>, Seq<char>> {
    match action {
        SyncAction::CloneUnified | SyncAction::CloneStandalone => Ok(repo),
        SyncAction::RestoreWorktree => restored_origin,
        _ => origin,
    }
}

/// A second plain `sync` after a successful one changes nothing: once a
/// run has succeeded for a sidecar (its step, if it took one, included),
/// the next plain run neither clones, restores nor relocates it, and reports
/// it as present: it is left alone, or in the unified layout its work tree
/// is pinned to the external git dir once more. A working tree restored
/// from a surviving git dir counts only when that git dir's origin is the
/// configured remote; with another origin the next run stops at the origin
/// check.
pub proof fn law_second_sync_changes_nothing(
    state: DiskState,
    repo: Seq<char>,
    standalone: bool,
    force_standalone: bool,
    origin: Result<Seq<char>, Seq<char>>,
    restored_origin: Result<Seq<char>, Seq<char>>,
)
    requires
        force_standalone ==> standalone,
        outcome_for(sync_action_of(state, repo, standalone, force_standalone, origin), true).ok,
        state == DiskState::MissingWorktree ==> (restored_origin matches Ok(o) && same_remote_spec(
            o,
            repo,
        )),
    ensures
        ({
            let a = sync_action_of(state, repo, standalone, force_standalone, origin);
            let after = layout_after(a, state);
            let origin2 = origin_after(a, repo, origin, restored_origin);
            let b = sync_action_of(after, repo, standalone, false, origin2);
            &&& !changes_layout(b)
            &&& b == SyncAction::AlreadyPresent || b == SyncAction::FinishDetach
            &&& outcome_for(b, true) == (SyncOutcome { ok: true, present: true })
        }),
{
    crate::remote::law_same_remote_reflexive_symmetric(repo, repo);
}

/// What `sync_preflight` returns.
pub open spec fn preflight_error(has_target: bool, standalone: bool, unify: bool) -> Option<Seq<char>> {
    if standalone && !has_target {
        Some("--standalone requires a sidecar name"@)
    } else if unify && !has_target {
        Some("--unify requires a sidecar name"@)
    } else {
        None
    }
}

/// `--standalone` and `--unify` each need a sidecar name.
pub fn sync_preflight(target: Option<&str>, standalone: bool, unify: bool) -> (res: Result<(), String>)
    ensures
        match res {
            Ok(()) => preflight_error(target is Some, standalone, unify) is None,
            Err(e) => preflight_error(target is Some, standalone, unify) == Some(e@),
        },
{
    if standalone && target.is_none() {
        return Err(owned("--standalone requires a sidecar name"));
    }
    if unify && target.is_none() {
        return Err(owned("--unify requires a sidecar name"));
    }
    Ok(())
}

/// The positions of the sidecars a sync run covers: the named one (if it is
/// configured), or every sidecar in increasing order of nickname.
pub fn select_sidecars(config: &Config, target: Option<&str>) -> (res: Vec<usize>)
    requires
        config.well_formed(),
    ensures
        match target {
            Some(t) => if index_of_name(config@, t@) >= 0 {
                res@ == seq![index_of_name(config@, t@) as usize]
            } else {
                res@.len() == 0
            },
            None => sorted_order_of(names_of(config@), res@),
        },
{
    match target {
        Some(t) => {
            let mut res: Vec<usize> = Vec::new();
            match config.position(t) {
                Some(i) => {
                    res.push(i);
                    assert(res@ =~= seq![index_of_name(config@, t@) as usize]);
                },
                None => {},
            }
            res
        },
        None => {
            let mut names: Vec<Vec<char>> = Vec::new();
            let mut i: usize = 0;
            while i < config.sidecars.len()
                invariant
                    i <= config@.len(),
                    config@.len() == config.sidecars@.len(),
                    views(names@) == names_of(config@).take(i as int),
                decreases config@.len() - i,
            {
                let n = chars_of(config.sidecars[i].0.as_str());
                let ghost before = names@;
                names.push(n);
                proof {
                    crate::text::lemma_views_push(before, n);
                }
                assert(views(names@) =~= names_of(config@).take(i + 1));
                i += 1;
            }
            assert(names_of(config@).take(i as int) =~= names_of(config@));
            sorted_order(&names)
        },
    }
}

/// Whether setting the layout flag of `name` changes the config: `Err` when
/// no such sidecar is configured.
pub fn layout_change_needed(config: &Config, name: &str, standalone: bool, config_path: &str) -> (res:
    Result<bool, String>)
    ensures
        match res {
            Ok(b) => index_of_name(config@, name@) >= 0 && b == (config@[index_of_name(
                config@,
                name@,
            )].1.standalone != standalone),
            Err(e) => index_of_name(config@, name@) == -1 && e@ == "sidecar '"@ + name@
                + "' not found in "@ + config_path@,
        },
{
    match config.get(name) {
        Some(s) => Ok(s.standalone != standalone),
        None => {
            let mut msg = chars_of("sidecar '");
            push_str(&mut msg, name);
            push_str(&mut msg, "' not found in ");
            push_str(&mut msg, config_path);
            Err(string_of(msg.as_slice()))
        },
    }
}

/// A sync run succeeds when every sidecar's step completed cleanly and the
/// exclude file could be updated; any warning or failed step fails it.
pub fn sync_succeeded(outcomes: &Vec<SyncOutcome>, exclude_ok: bool) -> (res: bool)
    ensures
        res == (exclude_ok && forall|i: int| 0 <= i < outcomes@.len() ==> (#[trigger] outcomes@[i]).ok),
{
    let mut all_ok = exclude_ok;
    let mut i: usize = 0;
    while i < outcomes.len()
        invariant
            i <= outcomes@.len(),
            all_ok == (exclude_ok && forall|j: int| 0 <= j < i ==> (#[trigger] outcomes@[j]).ok),
        decreases outcomes@.len() - i,
    {
        if !outcomes[i].ok {
            all_ok = false;
        }
        i += 1;
    }
    all_ok
}

/// What is reported when a run finds nothing configured for the repository.
pub open spec fn nothing_configured(origin_url: Seq<char>, config_path: Seq<char>) -> Seq<char> {
    "no sidecars configured for "@ + origin_url + " ("@ + config_path + ")"@
}

/// The refusal when a named sidecar is asked for but there is no config.
pub open spec fn no_config_error(name: Seq<char>, config_path: Seq<char>) -> Seq<char> {
    "sidecar '"@ + name + "' not found; no config at "@ + config_path
}

/// The refusal when a named sidecar is not in the config.
pub open spec fn not_configured_error(name: Seq<char>, config_path: Seq<char>) -> Seq<char> {
    "sidecar '"@ + name + "' not found in "@ + config_path
}

/// What a command does when the repository has no config file: naming a
/// sidecar is an error; otherwise there is nothing to do, which is reported
/// (the `Ok` text).
pub fn without_config(target: Option<&str>, origin_url: &str, config_path: &str) -> (res: Result<
    String,
    String,
>)
    ensures
        match target {
            Some(n) => res is Err && res->Err_0@ == no_config_error(n@, config_path@),
            None => res is Ok && res->Ok_0@ == nothing_configured(origin_url@, config_path@),
        },
{
    match target {
        Some(n) => {
            let mut msg = chars_of("sidecar '");
            push_str(&mut msg, n);
            push_str(&mut msg, "' not found; no config at ");
            push_str(&mut msg, config_path);
            Err(string_of(msg.as_slice()))
        },
        None => Ok(nothing_configured_text(origin_url, config_path)),
    }
}

/// What a sync run does when its selection is empty: a named sidecar that
/// is not configured is an error; an empty config is reported (the `Ok`
/// text).
pub fn nothing_selected(target: Option<&str>, origin_url: &str, config_path: &str) -> (res: Result<
    String,
    String,
>)
    ensures
        match target {
            Some(n) => res is Err && res->Err_0@ == not_configured_error(n@, config_path@),
            None => res is Ok && res->Ok_0@ == nothing_configured(origin_url@, config_path@),
        },
{
    match target {
        Some(n) => {
            let mut msg = chars_of("sidecar '");
            push_str(&mut msg, n);
            push_str(&mut msg, "' not found in ");
            push_str(&mut msg, config_path);
            Err(string_of(msg.as_slice()))
        },
        None => Ok(nothing_configured_text(origin_url, config_path)),
    }
}

/// The report that nothing is configured for the repository.
pub fn nothing_configured_text(origin_url: &str, config_path: &str) -> (res: String)
    ensures
        res@ == nothing_configured(origin_url@, config_path@),
{
    let mut msg = chars_of("no sidecars configured for ");
    push_str(&mut msg, origin_url);
    push_str(&mut msg, " (");
    push_str(&mut msg, config_path);
    push_str(&mut msg, ")");
    string_of(msg.as_slice())
}

/// The mappings of the sidecars a run covered whose repository is now
/// present, in the order they were processed.
pub open spec fn present_mappings_of(
    es: Seq<(Seq<char>, SidecarView)>,
    selected: Seq<usize>,
    outcomes: Seq<SyncOutcome>,
) -> Seq<Seq<char>>
    decreases selected.len(),
{
    if selected.len() == 0 {
        Seq::empty()
    } else {
        let prev = present_mappings_of(es, selected.drop_last(), outcomes);
        if outcomes[selected.len() - 1].present {
            prev.push(es[selected.last() as int].1.mapping)
        } else {
            prev
        }
    }
}

/// The mappings to keep in the exclude file after a run: those of the
/// covered sidecars (`selected`, with their `outcomes` in the same order)
/// whose repository is present.
pub fn present_mappings(config: &Config, selected: &Vec<usize>, outcomes: &Vec<SyncOutcome>) -> (res:
    Vec<String>)
    requires
        selected@.len() == outcomes@.len(),
        forall|k: int| 0 <= k < selected@.len() ==> (#[trigger] selected@[k]) < config@.len(),
    ensures
        str_views(res@) == present_mappings_of(config@, selected@, outcomes@),
{
    let mut res: Vec<String> = Vec::new();
    let mut k: usize = 0;
    while k < selected.len()
        invariant
            k <= selected@.len(),
            selected@.len() == outcomes@.len(),
            config@.len() == config.sidecars@.len(),
            forall|q: int| 0 <= q < selected@.len() ==> (#[trigger] selected@[q]) < config@.len(),
            str_views(res@) == present_mappings_of(config@, selected@.take(k as int), outcomes@),
        decreases selected@.len() - k,
    {
        assert(selected@.take(k + 1).drop_last() =~= selected@.take(k as int));
        assert(selected@.take(k + 1).last() == selected@[k as int]);
        if outcomes[k].present {
            let i = selected[k];
            let m = owned(config.sidecars[i].1.mapping.as_str());
            assert(config@[i as int].1.mapping == config.sidecars@[i as int].1.mapping@);
            let ghost before = str_views(res@);
            res.push(m);
            assert(str_views(res@) =~= before.push(m@));
        }
        k += 1;
    }
    assert(selected@.take(k as int) =~= selected@);
    res
}

} // verus!
