//! The per-repository config file: its model, the checks a parsed file must
//! pass, where the file lives, and the textual edits that add a sidecar's
//! table, drop it, or set its `standalone` key while keeping the rest of the
//! text as written.

use vstd::prelude::*;

use crate::exclude::{str_views, unlines};
use crate::paths::{is_portable_relative_path, join_path, join_path_exec, portable_relative};
use crate::remote::{normalize_remote_url, normalized_remote};
use crate::text::{
    chars_of, concat3, copy_range, eq_chars, eq_str, join, join_with, lemma_views_push, lines,
    lines_of, one_char, owned, push_all, push_str, string_of, trim, trim_ch, trim_char, trim_end,
    trim_end_ws, trim_start, trim_start_ws, trim_ws, views, terminated_lines,
};

verus! {

/// Directory under the OS config directory that holds every config file.
pub const CONFIG_DIR_NAME: &'static str = "git-sidecar";

/// Name of the per-repository config file.
pub const CONFIG_FILE_NAME: &'static str = "config.toml";

/// The only supported config file version.
pub const CONFIG_VERSION: u32 = 1;

/// Subcommand names, which cannot be sidecar nicknames.
pub const RESERVED_NICKNAMES: [&'static str; 6] = ["list", "sync", "clone", "remove", "rm", "help"];

/// A single sidecar entry from the v1 config.
#[derive(Debug)]
pub struct Sidecar {
    /// Remote URL for the sidecar repository.
    pub repo: String,
    /// Path to the sidecar git repository, relative to the parent repo root.
    pub mapping: String,
    /// Whether the sidecar keeps its git directory inside the mapping
    /// directory (absent in the file means `false`).
    pub standalone: bool,
}

/// The abstract value of a sidecar entry.
pub struct SidecarView {
    pub repo: Seq<char>,
    pub mapping: Seq<char>,
    pub standalone: bool,
}

impl View for Sidecar {
    type V = SidecarView;

    open spec fn view(&self) -> SidecarView {
        SidecarView { repo: self.repo@, mapping: self.mapping@, standalone: self.standalone }
    }
}

/// Parsed representation of a v1 git-sidecar config file: its sidecars by
/// nickname (no nickname occurs twice).
#[derive(Debug)]
pub struct Config {
    pub sidecars: Vec<(String, Sidecar)>,
}

/// The nicknames and entries of a list of sidecars.
pub open spec fn entries_view(v: Seq<(String, Sidecar)>) -> Seq<(Seq<char>, SidecarView)> {
    Seq::new(v.len(), |i: int| (v[i].0@, v[i].1@))
}

/// No nickname occurs twice.
pub open spec fn distinct_names(es: Seq<(Seq<char>, SidecarView)>) -> bool {
    forall|i: int, j: int| 0 <= i < j < es.len() ==> es[i].0 != es[j].0
}

impl View for Config {
    type V = Seq<(Seq<char>, SidecarView)>;

    open spec fn view(&self) -> Seq<(Seq<char>, SidecarView)> {
        entries_view(self.sidecars@)
    }
}

/// Index of the entry with nickname `name`, or -1.
pub open spec fn index_of_name(es: Seq<(Seq<char>, SidecarView)>, name: Seq<char>) -> int
    decreases es.len(),
{
    if es.len() == 0 {
        -1
    } else if es.last().0 == name {
        es.len() - 1
    } else {
        index_of_name(es.drop_last(), name)
    }
}

/// What `index_of_name` returns: the last entry with that name, or -1.
pub proof fn lemma_index_of_name(es: Seq<(Seq<char>, SidecarView)>, name: Seq<char>)
    ensures
        -1 <= index_of_name(es, name) < es.len(),
        index_of_name(es, name) >= 0 ==> es[index_of_name(es, name)].0 == name,
        forall|k: int| index_of_name(es, name) < k < es.len() ==> es[k].0 != name,
        index_of_name(es, name) == -1 <==> forall|k: int| 0 <= k < es.len() ==> es[k].0 != name,
    decreases es.len(),
{
    if es.len() > 0 && es.last().0 != name {
        lemma_index_of_name(es.drop_last(), name);
        assert forall|k: int| index_of_name(es, name) < k < es.len() implies es[k].0 != name by {
            if k < es.len() - 1 {
                assert(es[k] == es.drop_last()[k]);
            }
        }
        assert forall|k: int| index_of_name(es, name) == -1 && 0 <= k < es.len() implies es[k].0
            != name by {
            if k < es.len() - 1 {
                assert(es[k] == es.drop_last()[k]);
            }
        }
    }
}

impl Config {
    /// No nickname occurs twice.
    pub open spec fn well_formed(&self) -> bool {
        distinct_names(self@)
    }

    /// Number of configured sidecars.
    pub fn len(&self) -> (res: usize)
        ensures
            res == self@.len(),
    {
        self.sidecars.len()
    }

    /// Whether no sidecar is configured.
    pub fn is_empty(&self) -> (res: bool)
        ensures
            res == (self@.len() == 0),
    {
        self.sidecars.len() == 0
    }

    /// Position of the sidecar with nickname `name`.
    pub fn position(&self, name: &str) -> (res: Option<usize>)
        ensures
            match res {
                Some(i) => i == index_of_name(self@, name@) && i < self@.len(),
                None => index_of_name(self@, name@) == -1,
            },
    {
        let nv = chars_of(name);
        let mut i = self.sidecars.len();
        assert(self@.take(i as int) =~= self@);
        while i > 0
            invariant
                i <= self@.len(),
                nv@ == name@,
                self@.len() == self.sidecars@.len(),
                index_of_name(self@, name@) == index_of_name(self@.take(i as int), name@),
            decreases i,
        {
            assert(self@.take(i as int).drop_last() =~= self@.take(i - 1));
            assert(self@[i - 1] == (self.sidecars@[i - 1].0@, self.sidecars@[i - 1].1@));
            if eq_str(nv.as_slice(), self.sidecars[i - 1].0.as_str()) {
                return Some(i - 1);
            }
            i -= 1;
        }
        None
    }

    /// Whether a sidecar with nickname `name` is configured.
    pub fn contains_key(&self, name: &str) -> (res: bool)
        ensures
            res == (exists|i: int| 0 <= i < self@.len() && self@[i].0 == name@),
    {
        proof {
            lemma_index_of_name(self@, name@);
        }
        let r = self.position(name);
        if let Some(i) = r {
            assert(self@[i as int].0 == name@);
        }
        r.is_some()
    }

    /// The sidecar with nickname `name`.
    pub fn get(&self, name: &str) -> (res: Option<&Sidecar>)
        ensures
            match res {
                Some(s) => index_of_name(self@, name@) >= 0 && self@[index_of_name(
                    self@,
                    name@,
                )].1 == s@,
                None => index_of_name(self@, name@) == -1,
            },
    {
        match self.position(name) {
            Some(i) => Some(&self.sidecars[i].1),
            None => None,
        }
    }
}

/// Everything needed to work with the current parent repo: its root, its
/// origin URL, and the config file that origin maps to.
#[derive(Debug)]
pub struct RepoContext {
    pub cwd: String,
    pub parent_repo: String,
    pub origin_url: String,
    pub config_path: String,
}

// ---------------------------------------------------------------------------
// Checks on a parsed config
// ---------------------------------------------------------------------------

/// A subcommand name.
pub open spec fn is_reserved(n: Seq<char>) -> bool {
    exists|i: int| 0 <= i < 6 && RESERVED_NICKNAMES[i]@ == n
}

/// The decimal digits of `n`.
pub open spec fn decimal(n: nat) -> Seq<char>
    decreases n,
{
    if n < 10 {
        seq![((48 + n) as u8) as char]
    } else {
        decimal(n / 10).push(((48 + n % 10) as u8) as char)
    }
}

/// The first problem with one sidecar entry, if any.
pub open spec fn entry_error(name: Seq<char>, s: SidecarView) -> Option<Seq<char>> {
    if trim(name).len() == 0 {
        Some("sidecar nickname cannot be empty"@)
    } else if is_reserved(name) {
        Some("sidecar nickname '"@ + name + "' is reserved"@)
    } else if trim(s.repo).len() == 0 {
        Some("sidecar '"@ + name + "' has an empty repo"@)
    } else if trim(s.mapping).len() == 0 {
        Some("sidecar '"@ + name + "' has an empty mapping"@)
    } else if !portable_relative(s.mapping) {
        Some("sidecar '"@ + name + "' mapping must be relative"@)
    } else {
        None
    }
}

/// The problem with the first faulty entry at or after `i`, if any.
pub open spec fn first_entry_error(es: Seq<(Seq<char>, SidecarView)>, i: int) -> Option<Seq<char>>
    decreases es.len() - i,
{
    if i >= es.len() || i < 0 {
        None
    } else {
        match entry_error(es[i].0, es[i].1) {
            Some(e) => Some(e),
            None => first_entry_error(es, i + 1),
        }
    }
}

/// The error for a parsed config with the given version and entries, if any.
pub open spec fn config_error(version: Option<u32>, es: Seq<(Seq<char>, SidecarView)>) -> Option<
    Seq<char>,
> {
    match version {
        None => Some("missing required top-level version = 1"@),
        Some(v) => if v != 1 {
            Some("unsupported config version "@ + decimal(v as nat) + "; expected 1"@)
        } else {
            first_entry_error(es, 0)
        },
    }
}

/// The decimal digits of `n`.
pub fn decimal_exec(n: u32) -> (res: Vec<char>)
    ensures
        res@ == decimal(n as nat),
    decreases n,
{
    if n < 10 {
        let d = (n as u8 + 48u8) as char;
        let r = one_char(d);
        r
    } else {
        let mut r = decimal_exec(n / 10);
        let d = ((n % 10) as u8 + 48u8) as char;
        r.push(d);
        r
    }
}

/// Whether `name` is a subcommand name.
pub fn is_reserved_exec(name: &str) -> (res: bool)
    ensures
        res == is_reserved(name@),
{
    let nv = chars_of(name);
    let mut i: usize = 0;
    while i < 6
        invariant
            i <= 6,
            nv@ == name@,
            forall|k: int| 0 <= k < i ==> RESERVED_NICKNAMES[k]@ != name@,
        decreases 6 - i,
    {
        if eq_str(nv.as_slice(), RESERVED_NICKNAMES[i]) {
            return true;
        }
        i += 1;
    }
    false
}

/// The first problem with one sidecar entry, if any.
fn check_entry(name: &String, sidecar: &Sidecar) -> (res: Option<String>)
    ensures
        match res {
            Some(e) => entry_error(name@, sidecar@) == Some(e@),
            None => entry_error(name@, sidecar@) is None,
        },
{
    let nv = chars_of(name.as_str());
    let nt = trim_ws(nv.as_slice());
    if nt.len() == 0 {
        return Some(owned("sidecar nickname cannot be empty"));
    }
    if is_reserved_exec(name.as_str()) {
        return Some(concat3("sidecar nickname '", nv.as_slice(), "' is reserved"));
    }
    let rv = chars_of(sidecar.repo.as_str());
    let rt = trim_ws(rv.as_slice());
    if rt.len() == 0 {
        return Some(concat3("sidecar '", nv.as_slice(), "' has an empty repo"));
    }
    let mv = chars_of(sidecar.mapping.as_str());
    let mt = trim_ws(mv.as_slice());
    if mt.len() == 0 {
        return Some(concat3("sidecar '", nv.as_slice(), "' has an empty mapping"));
    }
    if !is_portable_relative_path(sidecar.mapping.as_str()) {
        return Some(concat3("sidecar '", nv.as_slice(), "' mapping must be relative"));
    }
    None
}

/// The checks `parse_config` makes on a parsed v1 file: the version must be
/// present and `1`, and every sidecar needs a non-blank, non-reserved
/// nickname, a non-blank repo and a non-blank, portable relative mapping.
/// The first faulty entry, in the order given, is the one reported.
pub fn check_config(version: Option<u32>, sidecars: Vec<(String, Sidecar)>) -> (res: Result<
    Config,
    String,
>)
    requires
        distinct_names(entries_view(sidecars@)),
    ensures
        match res {
            Ok(c) => config_error(version, entries_view(sidecars@)) is None && c@ == entries_view(
                sidecars@,
            ) && c.well_formed(),
            Err(e) => config_error(version, entries_view(sidecars@)) == Some(e@),
        },
{
    let v = match version {
        None => return Err(owned("missing required top-level version = 1")),
        Some(v) => v,
    };
    if v != CONFIG_VERSION {
        let digits = decimal_exec(v);
        return Err(concat3("unsupported config version ", digits.as_slice(), "; expected 1"));
    }
    let ghost es = entries_view(sidecars@);
    let mut i: usize = 0;
    while i < sidecars.len()
        invariant
            i <= sidecars@.len(),
            es == entries_view(sidecars@),
            version == Some(1u32),
            first_entry_error(es, 0) == first_entry_error(es, i as int),
        decreases sidecars@.len() - i,
    {
        assert(es[i as int] == (sidecars@[i as int].0@, sidecars@[i as int].1@));
        match check_entry(&sidecars[i].0, &sidecars[i].1) {
            Some(e) => return Err(e),
            None => {},
        }
        i += 1;
    }
    Ok(Config { sidecars })
}

/// No entry at or after `i` has a problem when the first check finds none.
proof fn lemma_first_entry_error(es: Seq<(Seq<char>, SidecarView)>, i: int)
    requires
        0 <= i,
        first_entry_error(es, i) is None,
    ensures
        forall|k: int| i <= k < es.len() ==> entry_error(#[trigger] es[k].0, es[k].1) is None,
    decreases es.len() - i,
{
    if i < es.len() {
        lemma_first_entry_error(es, i + 1);
    }
}

/// Every config that loads is version 1, and each of its sidecars has a
/// non-blank nickname that is no subcommand name, a non-blank repo, and a
/// non-blank mapping that is relative on every platform.
pub proof fn law_loaded_config_is_valid(version: Option<u32>, es: Seq<(Seq<char>, SidecarView)>)
    requires
        config_error(version, es) is None,
    ensures
        version == Some(1u32),
        forall|k: int|
            0 <= k < es.len() ==> {
                &&& trim(#[trigger] es[k].0).len() > 0
                &&& !is_reserved(es[k].0)
                &&& trim(es[k].1.repo).len() > 0
                &&& trim(es[k].1.mapping).len() > 0
                &&& portable_relative(es[k].1.mapping)
            },
{
    lemma_first_entry_error(es, 0);
}

/// The subcommand names a nickname may not take: a nickname is reserved
/// exactly when it is one of them, letter for letter (`helpers` or `lists`
/// are ordinary nicknames).
pub open spec fn subcommand_name(n: Seq<char>) -> bool {
    ||| n == "list"@
    ||| n == "sync"@
    ||| n == "clone"@
    ||| n == "remove"@
    ||| n == "rm"@
    ||| n == "help"@
}

/// A nickname is refused as reserved exactly when it is one of the six
/// subcommand names.
pub proof fn law_reserved_nicknames_are_subcommand_names(n: Seq<char>)
    ensures
        is_reserved(n) <==> subcommand_name(n),
{
    assert(RESERVED_NICKNAMES[0] == "list");
    assert(RESERVED_NICKNAMES[1] == "sync");
    assert(RESERVED_NICKNAMES[2] == "clone");
    assert(RESERVED_NICKNAMES[3] == "remove");
    assert(RESERVED_NICKNAMES[4] == "rm");
    assert(RESERVED_NICKNAMES[5] == "help");
    if subcommand_name(n) {
        if n == "list"@ {
            assert(RESERVED_NICKNAMES[0]@ == n);
        } else if n == "sync"@ {
            assert(RESERVED_NICKNAMES[1]@ == n);
        } else if n == "clone"@ {
            assert(RESERVED_NICKNAMES[2]@ == n);
        } else if n == "remove"@ {
            assert(RESERVED_NICKNAMES[3]@ == n);
        } else if n == "rm"@ {
            assert(RESERVED_NICKNAMES[4]@ == n);
        } else {
            assert(RESERVED_NICKNAMES[5]@ == n);
        }
    }
}

/// A version 1 config is refused only for a stated fault: when every entry
/// has a non-blank nickname that is none of the subcommand names, a
/// non-blank repo and a non-blank mapping that is relative on every
/// platform, it loads.
pub proof fn law_valid_config_loads(es: Seq<(Seq<char>, SidecarView)>)
    requires
        forall|k: int|
            0 <= k < es.len() ==> {
                &&& trim(#[trigger] es[k].0).len() > 0
                &&& !subcommand_name(es[k].0)
                &&& trim(es[k].1.repo).len() > 0
                &&& trim(es[k].1.mapping).len() > 0
                &&& portable_relative(es[k].1.mapping)
            },
    ensures
        config_error(Some(1u32), es) is None,
{
    lemma_entries_valid(es, 0);
}

/// Entries that each meet the stated conditions give no error from `i` on.
proof fn lemma_entries_valid(es: Seq<(Seq<char>, SidecarView)>, i: int)
    requires
        0 <= i,
        forall|k: int|
            0 <= k < es.len() ==> {
                &&& trim(#[trigger] es[k].0).len() > 0
                &&& !subcommand_name(es[k].0)
                &&& trim(es[k].1.repo).len() > 0
                &&& trim(es[k].1.mapping).len() > 0
                &&& portable_relative(es[k].1.mapping)
            },
    ensures
        first_entry_error(es, i) is None,
    decreases es.len() - i,
{
    if i < es.len() {
        law_reserved_nicknames_are_subcommand_names(es[i].0);
        assert(entry_error(es[i].0, es[i].1) is None);
        lemma_entries_valid(es, i + 1);
    }
}

// ---------------------------------------------------------------------------
// Where the config file lives
// ---------------------------------------------------------------------------

/// The config directory on Linux and other Unix systems: `XDG_CONFIG_HOME`
/// when set and non-empty, else `HOME/.config` when `HOME` is set and
/// non-empty.
pub open spec fn config_dir_for(xdg: Option<Seq<char>>, home: Option<Seq<char>>) -> Result<
    Seq<char>,
    Seq<char>,
> {
    match xdg {
        Some(x) if x.len() > 0 => Ok(x),
        _ => match home {
            Some(h) if h.len() > 0 => Ok(join_path(h, ".config"@)),
            _ => Err(
                "neither XDG_CONFIG_HOME nor HOME is set; cannot locate the config directory"@,
            ),
        },
    }
}

/// The views of an optional string.
pub open spec fn opt_view(o: Option<&str>) -> Option<Seq<char>> {
    match o {
        Some(s) => Some(s@),
        None => None,
    }
}

/// The platform config directory from the values of `XDG_CONFIG_HOME` and
/// `HOME` (as Linux and other Unix systems but macOS locate it).
pub fn config_dir_from_env(xdg: Option<&str>, home: Option<&str>) -> (res: Result<String, String>)
    ensures
        match res {
            Ok(d) => config_dir_for(opt_view(xdg), opt_view(home)) == Ok::<
                Seq<char>,
                Seq<char>,
            >(d@),
            Err(e) => config_dir_for(opt_view(xdg), opt_view(home)) == Err::<
                Seq<char>,
                Seq<char>,
            >(e@),
        },
{
    if let Some(x) = xdg {
        let xv = chars_of(x);
        if xv.len() > 0 {
            return Ok(owned(x));
        }
    }
    if let Some(h) = home {
        let hv = chars_of(h);
        if hv.len() > 0 {
            let dot_config = chars_of(".config");
            let p = join_path_exec(hv.as_slice(), dot_config.as_slice());
            return Ok(string_of(p.as_slice()));
        }
    }
    Err(owned("neither XDG_CONFIG_HOME nor HOME is set; cannot locate the config directory"))
}

/// The config directory on macOS: `HOME/Library/Application Support` when
/// `HOME` is set and non-empty.
pub open spec fn config_dir_macos_of(home: Option<Seq<char>>) -> Result<Seq<char>, Seq<char>> {
    match home {
        Some(h) if h.len() > 0 => Ok(join_path(join_path(h, "Library"@), "Application Support"@)),
        _ => Err("HOME is not set; cannot locate the macOS config directory"@),
    }
}

/// The config directory on macOS, from the value of `HOME`.
pub fn config_dir_macos(home: Option<&str>) -> (res: Result<String, String>)
    ensures
        match res {
            Ok(d) => config_dir_macos_of(opt_view(home)) == Ok::<Seq<char>, Seq<char>>(d@),
            Err(e) => config_dir_macos_of(opt_view(home)) == Err::<Seq<char>, Seq<char>>(e@),
        },
{
    if let Some(h) = home {
        let hv = chars_of(h);
        if hv.len() > 0 {
            let lib = chars_of("Library");
            let a = join_path_exec(hv.as_slice(), lib.as_slice());
            let sup = chars_of("Application Support");
            let p = join_path_exec(a.as_slice(), sup.as_slice());
            return Ok(string_of(p.as_slice()));
        }
    }
    Err(owned("HOME is not set; cannot locate the macOS config directory"))
}

/// The config directory on Windows: `APPDATA` when set and non-empty.
pub open spec fn config_dir_windows_of(appdata: Option<Seq<char>>) -> Result<Seq<char>, Seq<char>> {
    match appdata {
        Some(a) if a.len() > 0 => Ok(a),
        _ => Err("APPDATA is not set; cannot locate the Windows config directory"@),
    }
}

/// The config directory on Windows, from the value of `APPDATA`.
pub fn config_dir_windows(appdata: Option<&str>) -> (res: Result<String, String>)
    ensures
        match res {
            Ok(d) => config_dir_windows_of(opt_view(appdata)) == Ok::<Seq<char>, Seq<char>>(d@),
            Err(e) => config_dir_windows_of(opt_view(appdata)) == Err::<Seq<char>, Seq<char>>(e@),
        },
{
    if let Some(a) = appdata {
        let av = chars_of(a);
        if av.len() > 0 {
            return Ok(owned(a));
        }
    }
    Err(owned("APPDATA is not set; cannot locate the Windows config directory"))
}

/// The config directory on other systems: `HOME/.config` when `HOME` is
/// set and non-empty.
pub open spec fn config_dir_other_of(home: Option<Seq<char>>) -> Result<Seq<char>, Seq<char>> {
    match home {
        Some(h) if h.len() > 0 => Ok(join_path(h, ".config"@)),
        _ => Err("HOME is not set; cannot locate the config directory"@),
    }
}

/// The config directory on other systems, from the value of `HOME`.
pub fn config_dir_other(home: Option<&str>) -> (res: Result<String, String>)
    ensures
        match res {
            Ok(d) => config_dir_other_of(opt_view(home)) == Ok::<Seq<char>, Seq<char>>(d@),
            Err(e) => config_dir_other_of(opt_view(home)) == Err::<Seq<char>, Seq<char>>(e@),
        },
{
    if let Some(h) = home {
        let hv = chars_of(h);
        if hv.len() > 0 {
            let dc = chars_of(".config");
            let p = join_path_exec(hv.as_slice(), dc.as_slice());
            return Ok(string_of(p.as_slice()));
        }
    }
    Err(owned("HOME is not set; cannot locate the config directory"))
}

/// The config file path for an origin URL under the given config directory:
/// `<dir>/git-sidecar/<host>/<owner>/<repo>/config.toml`.
pub open spec fn config_path_for(config_dir: Seq<char>, origin: Seq<char>) -> Result<
    Seq<char>,
    Seq<char>,
> {
    match normalized_remote(origin) {
        Ok(rel) => Ok(
            join_path(join_path(join_path(config_dir, CONFIG_DIR_NAME@), rel), CONFIG_FILE_NAME@),
        ),
        Err(e) => Err(e),
    }
}

/// The config file for `origin_url` under the platform config directory
/// `config_dir`.
pub fn config_path_for_origin(config_dir: &str, origin_url: &str) -> (res: Result<String, String>)
    ensures
        match res {
            Ok(p) => config_path_for(config_dir@, origin_url@) == Ok::<Seq<char>, Seq<char>>(p@),
            Err(e) => config_path_for(config_dir@, origin_url@) == Err::<Seq<char>, Seq<char>>(
                e@,
            ),
        },
{
    let rel = match normalize_remote_url(origin_url) {
        Ok(r) => r,
        Err(e) => return Err(e),
    };
    let dv = chars_of(config_dir);
    let name = chars_of(CONFIG_DIR_NAME);
    let base = join_path_exec(dv.as_slice(), name.as_slice());
    let relv = chars_of(rel.as_str());
    let repo_dir = join_path_exec(base.as_slice(), relv.as_slice());
    let file = chars_of(CONFIG_FILE_NAME);
    let p = join_path_exec(repo_dir.as_slice(), file.as_slice());
    Ok(string_of(p.as_slice()))
}


// ---------------------------------------------------------------------------
// Writing TOML
// ---------------------------------------------------------------------------

/// The TOML text that `toml` writes for a string value.
pub uninterp spec fn toml_string_repr(s: Seq<char>) -> Seq<char>;

/// `toml::Value::String(value).to_string()`: the TOML text of a string
/// value. Its result is taken to be `toml_string_repr` of the value, a fixed
/// function of it; which quoting style toml picks is not stated.
#[verifier::external_body]
fn toml_string(value: &str) -> (res: String)
    ensures
        res@ == toml_string_repr(value@),
{
    toml::Value::String(value.to_string()).to_string()
}

/// A character allowed in a bare TOML key.
pub open spec fn is_bare_key_char(c: char) -> bool {
    ('a' <= c && c <= 'z') || ('A' <= c && c <= 'Z') || ('0' <= c && c <= '9') || c == '-' || c
        == '_'
}

/// The key as written in a table header: bare when it can be, else quoted.
pub open spec fn toml_key_of(k: Seq<char>) -> Seq<char> {
    if k.len() > 0 && (forall|i: int| 0 <= i < k.len() ==> is_bare_key_char(k[i])) {
        k
    } else {
        toml_string_repr(k)
    }
}

/// The table text for one sidecar, from its header key and the TOML text
/// of its repo and mapping values.
pub open spec fn table_text(key: Seq<char>, repo_lit: Seq<char>, mapping_lit: Seq<char>, standalone: bool) -> Seq<char> {
    "[sidecars."@ + key + "]\nrepo = "@ + repo_lit + "\nmapping = "@ + mapping_lit + "\n"@ + (
    if standalone {
        "standalone = true\n"@
    } else {
        Seq::<char>::empty()
    })
}

/// The table text for one sidecar.
pub open spec fn snippet_of(name: Seq<char>, repo: Seq<char>, mapping: Seq<char>, standalone: bool) -> Seq<char> {
    table_text(toml_key_of(name), toml_string_repr(repo), toml_string_repr(mapping), standalone)
}

/// What `config_with_sidecar` returns.
pub open spec fn with_sidecar(existing: Option<Seq<char>>, snippet: Seq<char>) -> Seq<char> {
    match existing {
        Some(c) => {
            let t = trim_end(c);
            (if t.len() > 0 {
                t + seq!['\n', '\n']
            } else {
                t
            }) + snippet
        },
        None => "version = 1\n\n"@ + snippet,
    }
}

/// The key as written in a table header: bare when it can be, else quoted.
fn toml_key(key: &str) -> (res: String)
    ensures
        res@ == toml_key_of(key@),
{
    let kv = chars_of(key);
    let mut bare = kv.len() > 0;
    let mut i: usize = 0;
    while i < kv.len()
        invariant
            i <= kv@.len(),
            kv@ == key@,
            bare == (kv@.len() > 0 && forall|j: int| 0 <= j < i ==> is_bare_key_char(kv@[j])),
        decreases kv@.len() - i,
    {
        let c = kv[i];
        if !(('a' <= c && c <= 'z') || ('A' <= c && c <= 'Z') || ('0' <= c && c <= '9') || c
            == '-' || c == '_') {
            bare = false;
        }
        i += 1;
    }
    if bare {
        owned(key)
    } else {
        toml_string(key)
    }
}

/// Lays out a sidecar's table from its header key and the TOML text of its
/// repo and mapping values; `standalone = true` is written only for a
/// standalone sidecar.
pub fn sidecar_table(key: &str, repo_lit: &str, mapping_lit: &str, standalone: bool) -> (res:
    String)
    ensures
        res@ == table_text(key@, repo_lit@, mapping_lit@, standalone),
{
    let mut out = chars_of("[sidecars.");
    push_str(&mut out, key);
    push_str(&mut out, "]\nrepo = ");
    push_str(&mut out, repo_lit);
    push_str(&mut out, "\nmapping = ");
    push_str(&mut out, mapping_lit);
    push_str(&mut out, "\n");
    let ghost before = out@;
    if standalone {
        push_str(&mut out, "standalone = true\n");
    } else {
        assert(out@ =~= before + Seq::<char>::empty());
    }
    string_of(out.as_slice())
}

/// The config table for a new sidecar; `standalone = true` is written only
/// for a standalone sidecar.
pub fn sidecar_config_snippet(name: &str, repo: &str, mapping: &str, standalone: bool) -> (res:
    String)
    ensures
        res@ == snippet_of(name@, repo@, mapping@, standalone),
{
    let k = toml_key(name);
    let r = toml_string(repo);
    let m = toml_string(mapping);
    sidecar_table(k.as_str(), r.as_str(), m.as_str(), standalone)
}

/// The views of an optional string.
pub open spec fn opt_str(o: Option<&str>) -> Option<Seq<char>> {
    match o {
        Some(s) => Some(s@),
        None => None,
    }
}

/// Appends a sidecar snippet to an existing config's text (preserving
/// whatever formatting it has), or starts a fresh v1 config.
pub fn config_with_sidecar(existing: Option<&str>, snippet: &str) -> (res: String)
    ensures
        res@ == with_sidecar(opt_str(existing), snippet@),
{
    match existing {
        Some(content) => {
            let cv = chars_of(content);
            let mut out = trim_end_ws(cv.as_slice());
            if out.len() > 0 {
                out.push('\n');
                out.push('\n');
            }
            let ghost prefix = out@;
            push_str(&mut out, snippet);
            assert(prefix =~= (if trim_end(content@).len() > 0 {
                trim_end(content@) + seq!['\n', '\n']
            } else {
                trim_end(content@)
            }));
            string_of(out.as_slice())
        },
        None => {
            let mut out = chars_of("version = 1\n\n");
            push_str(&mut out, snippet);
            string_of(out.as_slice())
        },
    }
}

/// Adding a sidecar keeps the existing config text (up to trailing
/// whitespace) and appends the new table at the end.
pub proof fn law_append_keeps_existing_text(existing: Seq<char>, snippet: Seq<char>)
    ensures
        with_sidecar(Some(existing), snippet).take(trim_end(existing).len() as int) == trim_end(
            existing,
        ),
        with_sidecar(Some(existing), snippet).skip(
            with_sidecar(Some(existing), snippet).len() - snippet.len(),
        ) == snippet,
{
    let r = with_sidecar(Some(existing), snippet);
    let t = trim_end(existing);
    assert(r.take(t.len() as int) =~= t);
    assert(r.skip(r.len() - snippet.len()) =~= snippet);
}

// ---------------------------------------------------------------------------
// Editing a sidecar's table in place
// ---------------------------------------------------------------------------

/// A quoted TOML key's escaping: `\` and `"` get a backslash.
pub open spec fn escape_key(n: Seq<char>) -> Seq<char>
    decreases n.len(),
{
    if n.len() == 0 {
        n
    } else {
        escape_key(n.drop_last()) + if n.last() == '\\' {
            seq!['\\', '\\']
        } else if n.last() == '"' {
            seq!['\\', '"']
        } else {
            seq![n.last()]
        }
    }
}

/// The line is, once trimmed, the header of `name`'s table in one of the
/// three ways it can be written (bare, double-quoted or single-quoted key).
pub open spec fn is_header_for(line: Seq<char>, name: Seq<char>) -> bool {
    let t = trim(line);
    ||| t == "[sidecars."@ + name + "]"@
    ||| t == "[sidecars.\""@ + escape_key(name) + "\"]"@
    ||| t == "[sidecars.'"@ + name + "']"@
}

/// Index of the first header line of `name`'s table at or after `from`, or
/// `ls.len()`.
pub open spec fn find_header(ls: Seq<Seq<char>>, name: Seq<char>, from: int) -> int
    decreases ls.len() - from,
{
    if from >= ls.len() {
        ls.len() as int
    } else if is_header_for(ls[from], name) {
        from
    } else {
        find_header(ls, name, from + 1)
    }
}

/// The line opens a table (its first non-blank character is `[`).
pub open spec fn is_table_start(line: Seq<char>) -> bool {
    let t = trim_start(line);
    t.len() > 0 && t[0] == '['
}

/// Index of the first line at or after `from` that opens a table, or
/// `ls.len()`.
pub open spec fn find_table_start(ls: Seq<Seq<char>>, from: int) -> int
    decreases ls.len() - from,
{
    if from >= ls.len() {
        ls.len() as int
    } else if is_table_start(ls[from]) {
        from
    } else {
        find_table_start(ls, from + 1)
    }
}

/// Runs of three or more line feeds shortened to two.
pub open spec fn collapse_nl(s: Seq<char>) -> Seq<char>
    decreases s.len(),
{
    if s.len() == 0 {
        s
    } else {
        let r = collapse_nl(s.drop_last());
        if s.last() == '\n' && r.len() >= 2 && r[r.len() - 1] == '\n' && r[r.len() - 2] == '\n' {
            r
        } else {
            r.push(s.last())
        }
    }
}

/// The error for a table that cannot be found.
pub open spec fn unlocatable(name: Seq<char>) -> Seq<char> {
    "could not locate the [sidecars."@ + name + "] entry in the config; remove it manually"@
}

/// What `config_without_sidecar` returns: the lines from the table's header
/// up to the next table (or the end) removed, runs of blank lines shortened,
/// line feeds trimmed from both ends and one final line feed added.
pub open spec fn without_sidecar(c: Seq<char>, name: Seq<char>) -> Result<Seq<char>, Seq<char>> {
    let ls = lines(c);
    let start = find_header(ls, name, 0);
    if start >= ls.len() {
        Err(unlocatable(name))
    } else {
        let end = find_table_start(ls, start + 1);
        let out = trim_ch(collapse_nl(join(ls.take(start) + ls.skip(end), seq!['\n'])), '\n');
        if out.len() == 0 {
            Ok(out)
        } else {
            Ok(out.push('\n'))
        }
    }
}

/// What `find_header` and `find_table_start` return.
pub proof fn lemma_find_header(ls: Seq<Seq<char>>, name: Seq<char>, from: int)
    requires
        0 <= from <= ls.len(),
    ensures
        from <= find_header(ls, name, from) <= ls.len(),
        from <= find_table_start(ls, from) <= ls.len(),
        find_header(ls, name, from) < ls.len() ==> is_header_for(
            ls[find_header(ls, name, from)],
            name,
        ),
        forall|k: int| from <= k < find_header(ls, name, from) ==> !is_header_for(ls[k], name),
    decreases ls.len() - from,
{
    if from < ls.len() {
        lemma_find_header(ls, name, from + 1);
    }
}

/// The three header spellings of `name`'s table.
fn header_forms(name: &str) -> (res: (Vec<char>, Vec<char>, Vec<char>))
    ensures
        res.0@ == "[sidecars."@ + name@ + "]"@,
        res.1@ == "[sidecars.\""@ + escape_key(name@) + "\"]"@,
        res.2@ == "[sidecars.'"@ + name@ + "']"@,
{
    let nv = chars_of(name);
    let mut f1 = chars_of("[sidecars.");
    push_all(&mut f1, nv.as_slice());
    push_str(&mut f1, "]");
    let mut esc: Vec<char> = Vec::new();
    let mut i: usize = 0;
    while i < nv.len()
        invariant
            i <= nv@.len(),
            nv@ == name@,
            esc@ == escape_key(nv@.take(i as int)),
        decreases nv@.len() - i,
    {
        assert(nv@.take(i + 1).drop_last() =~= nv@.take(i as int));
        let ghost before = esc@;
        let c = nv[i];
        if c == '\\' {
            esc.push('\\');
            esc.push('\\');
            assert(esc@ =~= before + seq!['\\', '\\']);
        } else if c == '"' {
            esc.push('\\');
            esc.push('"');
            assert(esc@ =~= before + seq!['\\', '"']);
        } else {
            esc.push(c);
            assert(esc@ =~= before + seq![c]);
        }
        i += 1;
    }
    assert(nv@.take(i as int) =~= nv@);
    let mut f2 = chars_of("[sidecars.\"");
    push_all(&mut f2, esc.as_slice());
    push_str(&mut f2, "\"]");
    let mut f3 = chars_of("[sidecars.'");
    push_all(&mut f3, nv.as_slice());
    push_str(&mut f3, "']");
    (f1, f2, f3)
}

/// Index of the first header line of `name`'s table at or after `from`.
fn find_header_exec(
    ls: &[Vec<char>],
    forms: &(Vec<char>, Vec<char>, Vec<char>),
    name: &str,
    from: usize,
) -> (r: usize)
    requires
        from <= ls@.len(),
        forms.0@ == "[sidecars."@ + name@ + "]"@,
        forms.1@ == "[sidecars.\""@ + escape_key(name@) + "\"]"@,
        forms.2@ == "[sidecars.'"@ + name@ + "']"@,
    ensures
        r == find_header(views(ls@), name@, from as int),
{
    let mut i = from;
    while i < ls.len()
        invariant
            from <= i <= ls@.len(),
            forms.0@ == "[sidecars."@ + name@ + "]"@,
            forms.1@ == "[sidecars.\""@ + escape_key(name@) + "\"]"@,
            forms.2@ == "[sidecars.'"@ + name@ + "']"@,
            find_header(views(ls@), name@, from as int) == find_header(
                views(ls@),
                name@,
                i as int,
            ),
        decreases ls@.len() - i,
    {
        let t = trim_ws(ls[i].as_slice());
        if eq_chars(t.as_slice(), forms.0.as_slice()) || eq_chars(t.as_slice(), forms.1.as_slice())
            || eq_chars(t.as_slice(), forms.2.as_slice()) {
            return i;
        }
        i += 1;
    }
    i
}

/// Index of the first line at or after `from` that opens a table.
fn find_table_start_exec(ls: &[Vec<char>], from: usize) -> (r: usize)
    requires
        from <= ls@.len(),
    ensures
        r == find_table_start(views(ls@), from as int),
{
    let mut i = from;
    while i < ls.len()
        invariant
            from <= i <= ls@.len(),
            find_table_start(views(ls@), from as int) == find_table_start(views(ls@), i as int),
        decreases ls@.len() - i,
    {
        let t = trim_start_ws(ls[i].as_slice());
        if t.len() > 0 && t[0] == '[' {
            return i;
        }
        i += 1;
    }
    i
}

/// Runs of three or more line feeds shortened to two.
fn collapse_blank_lines(v: &[char]) -> (res: Vec<char>)
    ensures
        res@ == collapse_nl(v@),
{
    let mut out: Vec<char> = Vec::new();
    let mut i: usize = 0;
    while i < v.len()
        invariant
            i <= v@.len(),
            out@ == collapse_nl(v@.take(i as int)),
        decreases v@.len() - i,
    {
        assert(v@.take(i + 1).drop_last() =~= v@.take(i as int));
        let n = out.len();
        if !(v[i] == '\n' && n >= 2 && out[n - 1] == '\n' && out[n - 2] == '\n') {
            out.push(v[i]);
        }
        i += 1;
    }
    assert(v@.take(i as int) =~= v@);
    out
}

/// Appends `ls[lo..hi]` to `out`.
fn append_lines(ls: &[Vec<char>], lo: usize, hi: usize, out: &mut Vec<Vec<char>>)
    requires
        lo <= hi <= ls@.len(),
    ensures
        views(final(out)@) == views(old(out)@) + views(ls@).subrange(lo as int, hi as int),
{
    let mut i = lo;
    while i < hi
        invariant
            lo <= i <= hi <= ls@.len(),
            views(out@) == views(old(out)@) + views(ls@).subrange(lo as int, i as int),
        decreases hi - i,
    {
        let c = copy_range(ls[i].as_slice(), 0, ls[i].len());
        assert(c@ =~= views(ls@)[i as int]);
        let ghost before = out@;
        out.push(c);
        proof {
            lemma_views_push(before, c);
        }
        assert(views(out@) =~= views(old(out)@) + views(ls@).subrange(lo as int, i + 1));
        i += 1;
    }
}

/// Removes a sidecar's table from the config's text, preserving everything
/// else. Fails if the table's header cannot be located textually.
pub fn config_without_sidecar(content: &str, name: &str) -> (res: Result<String, String>)
    ensures
        match res {
            Ok(s) => without_sidecar(content@, name@) == Ok::<Seq<char>, Seq<char>>(s@),
            Err(e) => without_sidecar(content@, name@) == Err::<Seq<char>, Seq<char>>(e@),
        },
{
    let cv = chars_of(content);
    let ls = lines_of(cv.as_slice());
    let forms = header_forms(name);
    let start = find_header_exec(ls.as_slice(), &forms, name, 0);
    if start >= ls.len() {
        let nv = chars_of(name);
        return Err(concat3(
            "could not locate the [sidecars.",
            nv.as_slice(),
            "] entry in the config; remove it manually",
        ));
    }
    let end = find_table_start_exec(ls.as_slice(), start + 1);
    proof {
        lemma_find_header(views(ls@), name@, start + 1);
    }
    let mut kept: Vec<Vec<char>> = Vec::new();
    append_lines(ls.as_slice(), 0, start, &mut kept);
    append_lines(ls.as_slice(), end, ls.len(), &mut kept);
    assert(views(kept@) =~= views(ls@).take(start as int) + views(ls@).skip(end as int));
    let nl = one_char('\n');
    let joined = join_with(kept.as_slice(), nl.as_slice());
    let collapsed = collapse_blank_lines(joined.as_slice());
    let mut out = trim_char(collapsed.as_slice(), '\n');
    if out.len() == 0 {
        return Ok(string_of(out.as_slice()));
    }
    out.push('\n');
    Ok(string_of(out.as_slice()))
}

/// `standalone`.
pub open spec fn standalone_key() -> Seq<char> {
    "standalone"@
}

/// A `standalone = ...` line.
pub open spec fn is_standalone_line(l: Seq<char>) -> bool {
    match crate::remote::split_once(trim(l), '=') {
        Some((k, _)) => trim(k) == standalone_key(),
        None => false,
    }
}

/// The lines that are not `standalone = ...` lines, in order.
pub open spec fn without_standalone_lines(body: Seq<Seq<char>>) -> Seq<Seq<char>>
    decreases body.len(),
{
    if body.len() == 0 {
        body
    } else {
        let r = without_standalone_lines(body.drop_last());
        if is_standalone_line(body.last()) {
            r
        } else {
            r.push(body.last())
        }
    }
}

/// One past the last non-blank line (0 when all are blank).
pub open spec fn end_of_content(body: Seq<Seq<char>>) -> int
    decreases body.len(),
{
    if body.len() == 0 {
        0
    } else if trim(body.last()).len() > 0 {
        body.len() as int
    } else {
        end_of_content(body.drop_last())
    }
}

/// What `config_set_standalone` returns: in `name`'s table every
/// `standalone = ...` line is dropped and, when `standalone` is set,
/// `standalone = true` is written after the table's last non-blank line;
/// the lines are then rejoined with a final line feed.
pub open spec fn with_standalone(c: Seq<char>, name: Seq<char>, standalone: bool) -> Result<
    Seq<char>,
    Seq<char>,
> {
    let ls = lines(c);
    let start = find_header(ls, name, 0);
    if start >= ls.len() {
        Err(
            "could not locate the [sidecars."@ + name
                + "] entry in the config; set standalone manually"@,
        )
    } else {
        let end = find_table_start(ls, start + 1);
        let body = without_standalone_lines(ls.subrange(start + 1, end));
        let new_body = if standalone {
            let k = end_of_content(body);
            body.take(k) + seq!["standalone = true"@] + body.skip(k)
        } else {
            body
        };
        Ok(unlines(ls.take(start + 1) + new_body + ls.skip(end)))
    }
}

/// Whether the line is a `standalone = ...` line.
fn is_standalone_line_exec(l: &[char]) -> (res: bool)
    ensures
        res == is_standalone_line(l@),
{
    let t = trim_ws(l);
    let k = crate::text::find_char_from(t.as_slice(), '=', 0);
    proof {
        crate::text::lemma_find_from(t@, '=', 0);
    }
    if k >= t.len() {
        return false;
    }
    let key = copy_range(t.as_slice(), 0, k);
    assert(key@ =~= t@.take(k as int));
    let kt = trim_ws(key.as_slice());
    eq_str(kt.as_slice(), "standalone")
}

/// The lines of `ls[lo..hi]` that are not `standalone = ...` lines.
fn lines_without_standalone(ls: &[Vec<char>], lo: usize, hi: usize) -> (res: Vec<Vec<char>>)
    requires
        lo <= hi <= ls@.len(),
    ensures
        views(res@) == without_standalone_lines(views(ls@).subrange(lo as int, hi as int)),
{
    let mut body: Vec<Vec<char>> = Vec::new();
    let mut i = lo;
    let ghost whole = views(ls@).subrange(lo as int, hi as int);
    while i < hi
        invariant
            lo <= i <= hi <= ls@.len(),
            whole == views(ls@).subrange(lo as int, hi as int),
            views(body@) == without_standalone_lines(whole.take(i - lo)),
        decreases hi - i,
    {
        assert(whole.take(i - lo + 1).drop_last() =~= whole.take(i - lo));
        assert(whole.take(i - lo + 1).last() == views(ls@)[i as int]);
        if !is_standalone_line_exec(ls[i].as_slice()) {
            let c = copy_range(ls[i].as_slice(), 0, ls[i].len());
            assert(c@ =~= views(ls@)[i as int]);
            let ghost before = body@;
            body.push(c);
            proof {
                lemma_views_push(before, c);
            }
        }
        i += 1;
    }
    assert(whole.take(hi - lo) =~= whole);
    body
}

/// Whether the line is blank (only whitespace).
fn is_blank(v: &[char]) -> (res: bool)
    ensures
        res == (trim(v@).len() == 0),
{
    let t = trim_ws(v);
    t.len() == 0
}

/// `standalone = true` inserted after the last non-blank line.
fn with_standalone_line(body: &Vec<Vec<char>>) -> (res: Vec<Vec<char>>)
    ensures
        views(res@) == views(body@).take(end_of_content(views(body@))) + seq![
            "standalone = true"@,
        ] + views(body@).skip(end_of_content(views(body@))),
{
    let mut new_body: Vec<Vec<char>> = Vec::new();
    let mut k = body.len();
    assert(views(body@).take(k as int) =~= views(body@));
    while k > 0 && is_blank(body[k - 1].as_slice())
        invariant
            k <= body@.len(),
            end_of_content(views(body@)) == end_of_content(views(body@).take(k as int)),
        decreases k,
    {
        assert(views(body@).take(k as int).drop_last() =~= views(body@).take(k - 1));
        k -= 1;
    }
    if k > 0 {
        assert(views(body@).take(k as int).last() == views(body@)[k - 1]);
    }
    append_lines(body.as_slice(), 0, k, &mut new_body);
    let line = chars_of("standalone = true");
    let ghost before = new_body@;
    new_body.push(line);
    proof {
        lemma_views_push(before, line);
    }
    append_lines(body.as_slice(), k, body.len(), &mut new_body);
    assert(views(new_body@) =~= views(body@).take(k as int) + seq!["standalone = true"@] + views(
        body@,
    ).skip(k as int));
    new_body
}

/// Marks a sidecar `standalone = true` in the config's text, or clears the
/// marking, leaving everything outside that table as it was.
pub fn config_set_standalone(content: &str, name: &str, standalone: bool) -> (res: Result<
    String,
    String,
>)
    ensures
        match res {
            Ok(s) => with_standalone(content@, name@, standalone) == Ok::<Seq<char>, Seq<char>>(
                s@,
            ),
            Err(e) => with_standalone(content@, name@, standalone) == Err::<
                Seq<char>,
                Seq<char>,
            >(e@),
        },
{
    let cv = chars_of(content);
    let ls = lines_of(cv.as_slice());
    let forms = header_forms(name);
    let start = find_header_exec(ls.as_slice(), &forms, name, 0);
    if start >= ls.len() {
        let nv = chars_of(name);
        return Err(concat3(
            "could not locate the [sidecars.",
            nv.as_slice(),
            "] entry in the config; set standalone manually",
        ));
    }
    let end = find_table_start_exec(ls.as_slice(), start + 1);
    proof {
        lemma_find_header(views(ls@), name@, start + 1);
    }
    let body = lines_without_standalone(ls.as_slice(), start + 1, end);
    let new_body = if standalone {
        with_standalone_line(&body)
    } else {
        body
    };
    let mut out_lines: Vec<Vec<char>> = Vec::new();
    append_lines(ls.as_slice(), 0, start + 1, &mut out_lines);
    append_lines(new_body.as_slice(), 0, new_body.len(), &mut out_lines);
    append_lines(ls.as_slice(), end, ls.len(), &mut out_lines);
    assert(views(out_lines@) =~= views(ls@).take(start + 1) + views(new_body@) + views(ls@).skip(
        end as int,
    ));
    let nl = one_char('\n');
    let mut out = join_with(out_lines.as_slice(), nl.as_slice());
    let ghost j = out@;
    out.push('\n');
    assert(out@ =~= j + seq!['\n']);
    Ok(string_of(out.as_slice()))
}

// ---------------------------------------------------------------------------
// Laws
// ---------------------------------------------------------------------------

/// The line that marks a sidecar standalone.
pub open spec fn standalone_line() -> Seq<char> {
    "standalone = true"@
}

/// What the marking line is made of.
proof fn lemma_standalone_line()
    ensures
        is_standalone_line(standalone_line()),
        !is_table_start(standalone_line()),
        !crate::text::has_char(standalone_line(), '\n'),
        crate::text::strip_cr(standalone_line()) == standalone_line(),
{
    reveal_strlit("standalone = true");
    reveal_strlit("standalone");
    let l = standalone_line();
    assert(l.len() == 17);
    assert(!crate::text::is_ws(l[0]) && !crate::text::is_ws(l.last()));
    assert(trim(l) == l);
    crate::text::lemma_find_from(l, '=', 0);
    assert forall|k: int| 0 <= k < 11 implies l[k] != '=' by {
        assert(0 <= k < 11);
    }
    assert(l[11] == '=');
    assert(crate::text::find_from(l, '=', 0) == 11);
    let key = l.take(11);
    assert(!crate::text::is_ws(key[0]));
    assert(key.last() == ' ');
    assert(crate::text::is_ws(' '));
    assert(key.drop_last().last() == 'e');
    assert(!crate::text::is_ws('e'));
    assert(trim_end(key.drop_last()) == key.drop_last());
    assert(trim_end(key) == key.drop_last());
    assert(key.drop_last() =~= standalone_key());
    assert(!crate::text::has_char(l, '\n')) by {
        assert forall|i: int| 0 <= i < l.len() implies l[i] != '\n' by {
            assert(0 <= i < 17);
        }
    }
}

/// How many lines are `standalone = ...` lines.
pub open spec fn standalone_count(ls: Seq<Seq<char>>) -> int
    decreases ls.len(),
{
    if ls.len() == 0 {
        0
    } else {
        standalone_count(ls.drop_last()) + if is_standalone_line(ls.last()) {
            1int
        } else {
            0int
        }
    }
}

/// Counting over two runs of lines.
proof fn lemma_standalone_count_concat(a: Seq<Seq<char>>, b: Seq<Seq<char>>)
    ensures
        standalone_count(a + b) == standalone_count(a) + standalone_count(b),
    decreases b.len(),
{
    if b.len() == 0 {
        assert(a + b =~= a);
    } else {
        assert((a + b).drop_last() =~= a + b.drop_last());
        assert((a + b).last() == b.last());
        lemma_standalone_count_concat(a, b.drop_last());
    }
}

/// Lines none of which is a `standalone = ...` line count nothing.
proof fn lemma_standalone_count_none(ls: Seq<Seq<char>>)
    requires
        forall|j: int| 0 <= j < ls.len() ==> !is_standalone_line(#[trigger] ls[j]),
    ensures
        standalone_count(ls) == 0,
    decreases ls.len(),
{
    if ls.len() > 0 {
        assert(ls.last() == ls[ls.len() - 1]);
        assert forall|j: int| 0 <= j < ls.drop_last().len() implies !is_standalone_line(
            #[trigger] ls.drop_last()[j],
        ) by {
            assert(ls.drop_last()[j] == ls[j]);
        }
        lemma_standalone_count_none(ls.drop_last());
    }
}

/// The lines kept by `without_standalone_lines` are lines of the body that
/// are not `standalone = ...` lines.
proof fn lemma_without_standalone(body: Seq<Seq<char>>)
    ensures
        forall|j: int|
            0 <= j < without_standalone_lines(body).len() ==> !is_standalone_line(
                #[trigger] without_standalone_lines(body)[j],
            ) && crate::exclude::line_in(body, 0, body.len() as int, without_standalone_lines(body)[j]),
        without_standalone_lines(body).len() <= body.len(),
    decreases body.len(),
{
    if body.len() > 0 {
        let d = body.drop_last();
        lemma_without_standalone(d);
        let r = without_standalone_lines(d);
        let w = without_standalone_lines(body);
        assert forall|j: int| 0 <= j < w.len() implies !is_standalone_line(#[trigger] w[j])
            && crate::exclude::line_in(body, 0, body.len() as int, w[j]) by {
            if j < r.len() {
                assert(w[j] == r[j]);
                let k = choose|k: int| 0 <= k < d.len() && d[k] == r[j];
                assert(body[k] == d[k]);
            } else {
                assert(w[j] == body.last());
                assert(body[body.len() - 1] == body.last());
            }
        }
    }
}

/// A line read back without its final carriage return opens a table, is a
/// header or a `standalone = ...` line exactly when it was before.
proof fn lemma_strip_cr_line(l: Seq<char>, name: Seq<char>)
    ensures
        is_table_start(crate::text::strip_cr(l)) == is_table_start(l),
        is_header_for(crate::text::strip_cr(l), name) == is_header_for(l, name),
        is_standalone_line(crate::text::strip_cr(l)) == is_standalone_line(l),
{
    crate::text::lemma_trim_strip_cr(l);
    if l.len() > 0 && l.last() == '\r' {
        lemma_trim_start_push_ws(l.drop_last(), '\r');
        assert(l.drop_last().push('\r') =~= l);
    }
}

/// Whitespace added at the end does not change whether a line's first
/// non-blank character opens a table.
proof fn lemma_trim_start_push_ws(y: Seq<char>, w: char)
    requires
        crate::text::is_ws(w),
    ensures
        is_table_start(y.push(w)) == is_table_start(y),
    decreases y.len(),
{
    if y.len() == 0 {
        assert(y.push(w).drop_first() =~= Seq::<char>::empty());
        assert(trim_start(y.push(w)) == trim_start(Seq::<char>::empty()));
    } else if crate::text::is_ws(y[0]) {
        assert(y.push(w).drop_first() =~= y.drop_first().push(w));
        lemma_trim_start_push_ws(y.drop_first(), w);
    } else {
        assert(y.push(w)[0] == y[0]);
    }
}

/// `find_header` finds the first header line.
proof fn lemma_find_header_is(ls: Seq<Seq<char>>, name: Seq<char>, from: int, j: int)
    requires
        0 <= from <= j <= ls.len(),
        forall|k: int| from <= k < j ==> !is_header_for(#[trigger] ls[k], name),
        j < ls.len() ==> is_header_for(ls[j], name),
    ensures
        find_header(ls, name, from) == j,
    decreases j - from,
{
    if from < j {
        lemma_find_header_is(ls, name, from + 1, j);
    }
}

/// `find_table_start` finds the first line that opens a table.
proof fn lemma_find_table_start_is(ls: Seq<Seq<char>>, from: int, j: int)
    requires
        0 <= from <= j <= ls.len(),
        forall|k: int| from <= k < j ==> !is_table_start(#[trigger] ls[k]),
        j < ls.len() ==> is_table_start(ls[j]),
    ensures
        find_table_start(ls, from) == j,
    decreases j - from,
{
    if from < j {
        lemma_find_table_start_is(ls, from + 1, j);
    }
}

/// What `find_table_start` returns: the first line that opens a table.
proof fn lemma_find_table_start(ls: Seq<Seq<char>>, from: int)
    requires
        0 <= from <= ls.len(),
    ensures
        from <= find_table_start(ls, from) <= ls.len(),
        find_table_start(ls, from) < ls.len() ==> is_table_start(ls[find_table_start(ls, from)]),
        forall|k: int| from <= k < find_table_start(ls, from) ==> !is_table_start(#[trigger] ls[k]),
    decreases ls.len() - from,
{
    if from < ls.len() {
        lemma_find_table_start(ls, from + 1);
    }
}

/// Marking a sidecar standalone (or clearing the marking) succeeds whenever
/// the config holds a header of its table, written with the bare key, the
/// double-quoted key (as `clone` writes it for a nickname that needs
/// quoting) or the single-quoted key; otherwise it is refused.
pub proof fn law_set_standalone_finds_every_header_form(
    c: Seq<char>,
    name: Seq<char>,
    standalone: bool,
    k: int,
)
    requires
        0 <= k < lines(c).len(),
        ({
            let t = trim(lines(c)[k]);
            ||| t == "[sidecars."@ + name + "]"@
            ||| t == "[sidecars.\""@ + escape_key(name) + "\"]"@
            ||| t == "[sidecars.'"@ + name + "']"@
        }),
    ensures
        with_standalone(c, name, standalone) is Ok,
{
    lemma_find_header(lines(c), name, 0);
    assert(is_header_for(lines(c)[k], name));
}

/// A nickname without `\` or `"` is written between double quotes as it is.
pub proof fn law_plain_nickname_quotes_as_is(n: Seq<char>)
    requires
        forall|i: int| 0 <= i < n.len() ==> n[i] != '\\' && n[i] != '"',
    ensures
        escape_key(n) == n,
    decreases n.len(),
{
    if n.len() > 0 {
        law_plain_nickname_quotes_as_is(n.drop_last());
        assert(n.drop_last() + seq![n.last()] =~= n);
    }
}

/// Without any header of the table, marking is refused.
pub proof fn law_set_standalone_needs_the_table(c: Seq<char>, name: Seq<char>, standalone: bool)
    requires
        forall|k: int| 0 <= k < lines(c).len() ==> !is_header_for(#[trigger] lines(c)[k], name),
    ensures
        with_standalone(c, name, standalone) is Err,
{
    lemma_find_header(lines(c), name, 0);
}

/// Marking a sidecar standalone (or clearing the marking) changes only its
/// table: read back, the table is found where it was and holds exactly one
/// `standalone = ...` line, `standalone = true`, when marked and none when
/// cleared; the lines before it and from the next table on are kept (each
/// without a final carriage return).
pub proof fn law_set_standalone_marks_only_that_table(c: Seq<char>, name: Seq<char>, standalone: bool)
    requires
        with_standalone(c, name, standalone) is Ok,
    ensures
        ({
            let ls = lines(c);
            let h = find_header(ls, name, 0);
            let end = find_table_start(ls, h + 1);
            let ls2 = lines(with_standalone(c, name, standalone)->Ok_0);
            let e2 = find_table_start(ls2, h + 1);
            &&& find_header(ls2, name, 0) == h
            &&& h < e2 <= ls2.len()
            &&& standalone_count(ls2.subrange(h + 1, e2)) == if standalone {
                1int
            } else {
                0int
            }
            &&& forall|j: int|
                h + 1 <= j < e2 && is_standalone_line(#[trigger] ls2[j]) ==> ls2[j]
                    == standalone_line()
            &&& ls2.take(h + 1) == crate::text::strip_crs(ls.take(h + 1))
            &&& ls2.skip(e2) == crate::text::strip_crs(ls.skip(end))
        }),
{
    let ls = lines(c);
    let h = find_header(ls, name, 0);
    lemma_find_header(ls, name, 0);
    lemma_find_table_start(ls, h + 1);
    let end = find_table_start(ls, h + 1);
    let body0 = ls.subrange(h + 1, end);
    let body = without_standalone_lines(body0);
    lemma_without_standalone(body0);
    lemma_standalone_line();
    let sl = standalone_line();
    let nb = if standalone {
        let k = end_of_content(body);
        body.take(k) + seq![sl] + body.skip(k)
    } else {
        body
    };
    // every line of the new body is a body line or the marking line
    assert forall|j: int| 0 <= j < nb.len() implies (#[trigger] nb[j] == sl && standalone)
        || crate::exclude::line_in(body, 0, body.len() as int, nb[j]) by {
        if standalone {
            let k = end_of_content(body);
            lemma_end_of_content(body);
            if j < k {
                assert(nb[j] == body[j]);
            } else if j > k {
                assert(nb[j] == body[j - 1]);
            }
        } else {
            assert(nb[j] == body[j]);
        }
    }
    let nbl = nb.len() as int;
    let l2 = ls.take(h + 1) + nb + ls.skip(end);
    crate::text::lemma_lines_no_newlines(c);
    assert(crate::text::no_newlines(l2)) by {
        assert forall|k: int| 0 <= k < l2.len() implies !crate::text::has_char(
            #[trigger] l2[k],
            '\n',
        ) by {
            if k <= h {
                assert(l2[k] == ls[k]);
            } else if k < h + 1 + nbl {
                assert(l2[k] == nb[k - h - 1]);
                if !(nb[k - h - 1] == sl && standalone) {
                    let q = choose|q: int| 0 <= q < body.len() && body[q] == nb[k - h - 1];
                    let p = choose|p: int| 0 <= p < body0.len() && body0[p] == body[q];
                    assert(body0[p] == ls[h + 1 + p]);
                }
            } else {
                assert(l2[k] == ls[k - h - 1 - nbl + end]);
            }
        }
    }
    crate::exclude::lemma_lines_unlines(l2);
    let r = unlines(l2);
    assert(with_standalone(c, name, standalone)->Ok_0 == r);
    let ls2 = lines(r);
    assert(ls2 == crate::text::strip_crs(l2));
    assert(find_header(ls2, name, 0) == h) by {
        assert forall|k: int| 0 <= k < h implies !is_header_for(#[trigger] ls2[k], name) by {
            assert(l2[k] == ls[k]);
            lemma_strip_cr_line(ls[k], name);
        }
        assert(l2[h] == ls[h]);
        lemma_strip_cr_line(ls[h], name);
        lemma_find_header_is(ls2, name, 0, h);
    }
    // the lines of the new body are no table starts
    assert forall|j: int| 0 <= j < nbl implies !is_table_start(#[trigger] ls2[h + 1 + j])
        && (is_standalone_line(ls2[h + 1 + j]) ==> ls2[h + 1 + j] == sl && standalone) by {
        assert(l2[h + 1 + j] == nb[j]);
        lemma_strip_cr_line(nb[j], name);
        if !(nb[j] == sl && standalone) {
            let q = choose|q: int| 0 <= q < body.len() && body[q] == nb[j];
            let p = choose|p: int| 0 <= p < body0.len() && body0[p] == body[q];
            assert(body0[p] == ls[h + 1 + p]);
        }
    }
    assert(find_table_start(ls2, h + 1) == h + 1 + nbl) by {
        if h + 1 + nbl < ls2.len() {
            assert(l2[h + 1 + nbl] == ls[end]);
            lemma_strip_cr_line(ls[end], name);
        }
        assert forall|k: int| h + 1 <= k < h + 1 + nbl implies !is_table_start(#[trigger] ls2[k]) by {
            assert(ls2[h + 1 + (k - h - 1)] == ls2[k]);
        }
        lemma_find_table_start_is(ls2, h + 1, h + 1 + nbl);
    }
    let sub = ls2.subrange(h + 1, h + 1 + nbl);
    assert forall|j: int| h + 1 <= j < h + 1 + nbl && is_standalone_line(#[trigger] ls2[j])
        implies ls2[j] == sl by {
        assert(ls2[h + 1 + (j - h - 1)] == ls2[j]);
    }
    if standalone {
        let k = end_of_content(body);
        lemma_end_of_content(body);
        let a = sub.take(k);
        let b = sub.skip(k + 1);
        assert(sub =~= a + seq![sl] + b) by {
            assert(sub[k] == ls2[h + 1 + k]);
            assert(l2[h + 1 + k] == nb[k]);
            assert(nb[k] == sl);
        }
        assert forall|j: int| 0 <= j < a.len() implies !is_standalone_line(#[trigger] a[j]) by {
            assert(a[j] == ls2[h + 1 + j]);
            assert(l2[h + 1 + j] == nb[j]);
            assert(nb[j] == body[j]);
        }
        assert forall|j: int| 0 <= j < b.len() implies !is_standalone_line(#[trigger] b[j]) by {
            assert(b[j] == ls2[h + 1 + (k + 1 + j)]);
            assert(l2[h + 1 + (k + 1 + j)] == nb[k + 1 + j]);
            assert(nb[k + 1 + j] == body[k + j]);
        }
        lemma_standalone_count_none(a);
        lemma_standalone_count_none(b);
        lemma_standalone_count_concat(a + seq![sl], b);
        lemma_standalone_count_concat(a, seq![sl]);
        assert(standalone_count(seq![sl]) == 1) by {
            assert(seq![sl].drop_last() =~= Seq::<Seq<char>>::empty());
            assert(standalone_count(seq![sl].drop_last()) == 0);
            assert(seq![sl].last() == sl);
        }
    } else {
        assert forall|j: int| 0 <= j < sub.len() implies !is_standalone_line(#[trigger] sub[j]) by {
            assert(sub[j] == ls2[h + 1 + j]);
        }
        lemma_standalone_count_none(sub);
    }
    assert(ls2.take(h + 1) =~= crate::text::strip_crs(ls.take(h + 1)));
    assert(ls2.skip(h + 1 + nbl) =~= crate::text::strip_crs(ls.skip(end)));
}

/// `end_of_content` is a position in the body.
proof fn lemma_end_of_content(body: Seq<Seq<char>>)
    ensures
        0 <= end_of_content(body) <= body.len(),
    decreases body.len(),
{
    if body.len() > 0 {
        lemma_end_of_content(body.drop_last());
    }
}

/// No three line feeds in a row.
pub open spec fn no_blank_run(s: Seq<char>) -> bool {
    forall|i: int| 0 <= i && i + 2 < s.len() ==> !(#[trigger] s[i] == '\n' && s[i + 1] == '\n' && s[i + 2]
        == '\n')
}

/// Collapsing changes nothing where there is nothing to collapse.
proof fn lemma_collapse_nl_id(s: Seq<char>)
    requires
        no_blank_run(s),
    ensures
        collapse_nl(s) == s,
    decreases s.len(),
{
    if s.len() > 0 {
        let d = s.drop_last();
        assert(no_blank_run(d)) by {
            assert forall|i: int| 0 <= i && i + 2 < d.len() implies !(#[trigger] d[i] == '\n' && d[i + 1]
                == '\n' && d[i + 2] == '\n') by {
                assert(d[i] == s[i] && d[i + 1] == s[i + 1] && d[i + 2] == s[i + 2]);
            }
        }
        lemma_collapse_nl_id(d);
        if s.last() == '\n' && d.len() >= 2 && d[d.len() - 1] == '\n' && d[d.len() - 2] == '\n' {
            assert(s[s.len() - 3] == '\n' && s[s.len() - 2] == '\n' && s[s.len() - 1] == '\n');
        }
        assert(d.push(s.last()) =~= s);
    }
}

/// The lines of a sidecar's table.
proof fn lemma_table_lines(n: Seq<char>, r: Seq<char>, m: Seq<char>, standalone: bool)
    requires
        n.len() > 0,
        forall|i: int| 0 <= i < n.len() ==> is_bare_key_char(#[trigger] n[i]),
        !crate::text::has_char(r, '\n'),
        !crate::text::has_char(m, '\n'),
    ensures
        ({
            let tl = lines(table_text(n, r, m, standalone));
            &&& tl.len() >= 3
            &&& is_header_for(tl[0], n)
            &&& forall|j: int| 1 <= j < tl.len() ==> !is_table_start(#[trigger] tl[j])
        }),
{
    reveal_strlit("[sidecars.");
    reveal_strlit("]");
    reveal_strlit("]\nrepo = ");
    reveal_strlit("repo = ");
    reveal_strlit("\nmapping = ");
    reveal_strlit("mapping = ");
    reveal_strlit("\n");
    reveal_strlit("standalone = true\n");
    reveal_strlit("standalone = true");
    let h = "[sidecars."@ + n + "]"@;
    let rl = "repo = "@ + r;
    let ml = "mapping = "@ + m;
    let sl = standalone_line();
    let sls = seq![h, rl, ml] + if standalone {
        seq![sl]
    } else {
        Seq::<Seq<char>>::empty()
    };
    let nl = seq!['\n'];
    assert(table_text(n, r, m, standalone) =~= terminated_lines(sls)) by {
        reveal_with_fuel(terminated_lines, 5);
        let a = seq![h, rl, ml];
        assert(a.drop_last() =~= seq![h, rl]);
        assert(seq![h, rl].drop_last() =~= seq![h]);
        assert(seq![h].drop_last() =~= Seq::<Seq<char>>::empty());
        assert(terminated_lines(a) =~= h + nl + rl + nl + ml + nl);
        if standalone {
            assert(sls.drop_last() =~= a);
            assert(terminated_lines(sls) =~= h + nl + rl + nl + ml + nl + sl + nl);
        } else {
            assert(sls =~= a);
        }
    }
    assert(!crate::text::has_char(h, '\n')) by {
        if crate::text::has_char(h, '\n') {
            let k = choose|k: int| 0 <= k < h.len() && h[k] == '\n';
            if 10 <= k < 10 + n.len() {
                assert(h[k] == n[k - 10]);
                assert(is_bare_key_char(n[k - 10]));
            }
        }
    }
    assert(!crate::text::has_char(rl, '\n')) by {
        if crate::text::has_char(rl, '\n') {
            let k = choose|k: int| 0 <= k < rl.len() && rl[k] == '\n';
            if k >= 7 {
                assert(rl[k] == r[k - 7]);
            }
        }
    }
    assert(!crate::text::has_char(ml, '\n')) by {
        if crate::text::has_char(ml, '\n') {
            let k = choose|k: int| 0 <= k < ml.len() && ml[k] == '\n';
            if k >= 10 {
                assert(ml[k] == m[k - 10]);
            }
        }
    }
    lemma_standalone_line();
    assert(crate::text::no_newlines(sls)) by {
        assert forall|k: int| 0 <= k < sls.len() implies !crate::text::has_char(#[trigger] sls[k], '\n') by {
            if k == 3 {
                assert(sls[k] == sl);
            }
        }
    }
    crate::text::lemma_lines_terminated(sls);
    let tl = lines(table_text(n, r, m, standalone));
    assert(tl[0] == crate::text::strip_cr(h));
    lemma_strip_cr_line(h, n);
    assert(h.last() == ']');
    assert(!crate::text::is_ws(h[0]) && !crate::text::is_ws(h.last()));
    assert(trim(h) == h);
    assert forall|j: int| 1 <= j < tl.len() implies !is_table_start(#[trigger] tl[j]) by {
        assert(tl[j] == crate::text::strip_cr(sls[j]));
        lemma_strip_cr_line(sls[j], n);
        let l = sls[j];
        if j == 1 {
            assert(l[0] == 'r');
        } else if j == 2 {
            assert(l[0] == 'm');
        } else {
            assert(l == sl);
            assert(l[0] == 's');
        }
        assert(!crate::text::is_ws(l[0]));
        assert(trim_start(l) == l);
    }
}

/// Adding a sidecar's table and then removing it gives back the config
/// text as it was, for a text that is trimmed to end in one line feed, does
/// not start with one, has no carriage return and no run of three line
/// feeds, and has no table for that nickname yet; the nickname is a bare
/// key and the repo and mapping texts hold no line feed.
pub proof fn law_config_add_then_remove(
    c: Seq<char>,
    n: Seq<char>,
    r: Seq<char>,
    m: Seq<char>,
    standalone: bool,
)
    requires
        trim_end(c).len() > 0,
        c == trim_end(c) + seq!['\n'],
        c[0] != '\n',
        !crate::text::has_char(c, '\r'),
        no_blank_run(c),
        forall|i: int| 0 <= i < lines(c).len() ==> !is_header_for(#[trigger] lines(c)[i], n),
        n.len() > 0,
        forall|i: int| 0 <= i < n.len() ==> is_bare_key_char(#[trigger] n[i]),
        !crate::text::has_char(r, '\n'),
        !crate::text::has_char(m, '\n'),
    ensures
        without_sidecar(with_sidecar(Some(c), table_text(n, r, m, standalone)), n) == Ok::<
            Seq<char>,
            Seq<char>,
        >(c),
{
    let t = trim_end(c);
    let snip = table_text(n, r, m, standalone);
    let w = with_sidecar(Some(c), snip);
    let nl = seq!['\n'];
    assert(w =~= (t + nl) + (nl + snip));
    crate::text::lemma_lines_append(t + nl, nl + snip);
    crate::text::lemma_lines_append(nl, snip);
    crate::text::lemma_lines_one(Seq::<char>::empty());
    assert(Seq::<char>::empty() + nl =~= nl);
    let e = Seq::<char>::empty();
    assert(crate::text::strip_cr(e) =~= e);
    let a = lines(t + nl);
    let tl = lines(snip);
    let ls = lines(w);
    assert(ls =~= a + seq![e] + tl);
    lemma_table_lines(n, r, m, standalone);
    assert(c =~= t + nl);
    let na = a.len() as int;
    // the new header is the first one
    crate::text::lemma_lines_trim_end(c);
    assert(find_header(ls, n, 0) == na + 1) by {
        assert forall|k: int| 0 <= k < na + 1 implies !is_header_for(#[trigger] ls[k], n) by {
            if k < na {
                assert(ls[k] == a[k]);
                assert(trim(a[k]) == trim(lines(c)[k]));
                assert(!is_header_for(lines(c)[k], n));
            } else {
                assert(ls[k] == e);
                assert(trim(e) =~= e) by {
                    assert(trim_end(e) =~= e);
                }
                reveal_strlit("[sidecars.");
                reveal_strlit("[sidecars.\"");
                reveal_strlit("[sidecars.'");
            }
        }
        assert(ls[na + 1] == tl[0]);
        lemma_find_header_is(ls, n, 0, na + 1);
    }
    assert(find_table_start(ls, na + 2) == ls.len()) by {
        assert forall|k: int| na + 2 <= k < ls.len() implies !is_table_start(#[trigger] ls[k]) by {
            assert(ls[k] == tl[k - na - 1]);
        }
        lemma_find_table_start_is(ls, na + 2, ls.len() as int);
    }
    let kept = ls.take(na + 1) + ls.skip(ls.len() as int);
    assert(kept =~= a.push(e));
    // the kept lines join back to the text
    crate::text::lemma_lines_no_newlines(c);
    assert(!crate::text::has_char(t + nl, '\r'));
    crate::text::lemma_terminated_lines_of(t + nl);
    assert(a.len() > 0) by {
        if a.len() == 0 {
            assert(crate::text::terminated_lines(a) =~= Seq::<char>::empty());
        }
    }
    crate::text::lemma_join_terminated(a);
    assert(a.push(e).drop_last() =~= a);
    assert(a.push(e).last() == e);
    assert(join(a.push(e), nl) =~= join(a, nl) + nl + e);
    assert(join(a.push(e), nl) =~= c);
    lemma_collapse_nl_id(c);
    // trimming the line feeds at both ends
    assert(t.last() != '\n') by {
        crate::text::lemma_trim_end_split(c);
        assert(crate::text::is_ws('\n'));
    }
    assert(crate::text::trim_end_ch(c, '\n') == crate::text::trim_end_ch(t, '\n')) by {
        assert(c.drop_last() =~= t);
    }
    assert(crate::text::trim_end_ch(t, '\n') == t);
    assert(t[0] == c[0]);
    assert(crate::text::trim_start_ch(t, '\n') == t);
    assert(trim_ch(c, '\n') == t);
    assert(t.push('\n') =~= c);
}

} // verus!
