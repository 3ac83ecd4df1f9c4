//! Remote URLs: the `host/owner/repo` path a parent repository's origin maps
//! to, comparison of two remotes, and the repository name of a URL.

use vstd::prelude::*;

use crate::text::{
    is_ws, occurs_at, trim_start, lemma_rfind_append, lemma_trim_end_append, lemma_trim_end_ch_append,
    lemma_trim_end_ch_prefix, lemma_trim_end_prefix, lemma_trim_start_fixed, trim_end,
    chars_of, concat3, contains_char, copy_range, ends_with, ends_with_exec, eq_chars,
    find_char_from, find_from, find_pat, find_pat_from, has_char, join, join_with, lemma_find_from,
    lemma_find_pat_from, lemma_rfind, one_char, owned, rfind, rfind_char, split_char, split_on,
    string_of, trim, trim_end_ch, trim_end_char, trim_ws, views,
};

verus! {

// ---------------------------------------------------------------------------
// Specifications
// ---------------------------------------------------------------------------

/// `str::split_once(c)`.
pub open spec fn split_once(s: Seq<char>, c: char) -> Option<(Seq<char>, Seq<char>)> {
    let i = find_from(s, c, 0);
    if i < s.len() {
        Some((s.take(i), s.skip(i + 1)))
    } else {
        None
    }
}

/// A URL trimmed of surrounding whitespace and then of trailing slashes.
pub open spec fn trimmed_url(u: Seq<char>) -> Seq<char> {
    trim_end_ch(trim(u), '/')
}

/// The authority with any `user@` prefix removed (up to the last `@`).
pub open spec fn userinfo_stripped(a: Seq<char>) -> Seq<char> {
    a.skip(rfind(a, '@') + 1)
}

/// The `://` separating a URL scheme from the rest.
pub open spec fn scheme_sep() -> Seq<char> {
    seq![':', '/', '/']
}

/// Host and repository path of what follows `scheme://`: the authority ends
/// at the first `/`; user info and a port are dropped from it.
pub open spec fn scheme_host_path(after: Seq<char>) -> Option<(Seq<char>, Seq<char>)> {
    match split_once(after, '/') {
        None => None,
        Some((authority, path)) => {
            let hp = userinfo_stripped(authority);
            let host = match split_once(hp, ':') {
                Some((h, _)) => h,
                None => hp,
            };
            Some((host, path))
        },
    }
}

/// The non-empty pieces, in order.
pub open spec fn nonempty_parts(parts: Seq<Seq<char>>) -> Seq<Seq<char>>
    decreases parts.len(),
{
    if parts.len() == 0 {
        parts
    } else {
        let r = nonempty_parts(parts.drop_last());
        if parts.last().len() > 0 {
            r.push(parts.last())
        } else {
            r
        }
    }
}

/// `.git`.
pub open spec fn dot_git() -> Seq<char> {
    seq!['.', 'g', 'i', 't']
}

/// `s` with one trailing `.git` removed, if present.
pub open spec fn strip_dot_git(s: Seq<char>) -> Seq<char> {
    if ends_with(s, dot_git()) {
        s.take(s.len() - 4)
    } else {
        s
    }
}

/// A path component that cannot stand in a config path.
pub open spec fn bad_part(p: Seq<char>) -> bool {
    p.len() == 0 || p == seq!['.'] || p == seq!['.', '.'] || has_char(p, '\\')
}

/// The components `host`, then the non-empty pieces of the repository path
/// with `.git` dropped from the last one; `None` when there is no host, no
/// path, or a component is empty, `.`, `..` or holds a backslash.
pub open spec fn remote_parts(host: Seq<char>, path: Seq<char>) -> Option<Seq<Seq<char>>> {
    let h = trim(host);
    let pp = nonempty_parts(split_char(path, '/'));
    if h.len() == 0 || pp.len() == 0 {
        None
    } else {
        let parts = seq![h] + pp.update(pp.len() - 1, strip_dot_git(pp.last()));
        if exists|i: int| 0 <= i < parts.len() && bad_part(parts[i]) {
            None
        } else {
            Some(parts)
        }
    }
}

/// The relative config path `host/owner/repo` for a host and repository path.
pub open spec fn remote_path_of(host: Seq<char>, path: Seq<char>) -> Option<Seq<char>> {
    match remote_parts(host, path) {
        Some(parts) => Some(join(parts, seq!['/'])),
        None => None,
    }
}

/// The error for a URL that is neither scheme-style nor scp-style.
pub open spec fn unsupported_shape(u: Seq<char>) -> Seq<char> {
    "unsupported remote.origin.url '"@ + u + "'; expected SSH or HTTPS-style Git URL"@
}

/// The error for a URL from which no config path can be derived.
pub open spec fn underivable(u: Seq<char>) -> Seq<char> {
    "unsupported remote.origin.url '"@ + u + "'; could not derive config path"@
}

/// Host and repository path of a trimmed URL, or the error message.
pub open spec fn url_host_path(t: Seq<char>, u: Seq<char>) -> Result<(Seq<char>, Seq<char>), Seq<char>> {
    let k = find_pat_from(t, scheme_sep(), 0);
    if k < t.len() {
        match scheme_host_path(t.skip(k + 3)) {
            Some(hp) => Ok(hp),
            None => Err("remote URL is missing a repository path"@),
        }
    } else {
        match split_once(t, ':') {
            Some((host_part, path_part)) => {
                if has_char(host_part, '/') {
                    Err("local-path remotes are not supported for config lookup"@)
                } else {
                    Ok((userinfo_stripped(host_part), path_part))
                }
            },
            None => Err(unsupported_shape(u)),
        }
    }
}

/// What `normalize_remote_url` returns for the URL `u`.
pub open spec fn normalized_remote(u: Seq<char>) -> Result<Seq<char>, Seq<char>> {
    let t = trimmed_url(u);
    if t.len() == 0 {
        Err("remote.origin.url is empty"@)
    } else {
        match url_host_path(t, u) {
            Err(e) => Err(e),
            Ok((h, p)) => match remote_path_of(h, p) {
                Some(r) => Ok(r),
                None => Err(underivable(u)),
            },
        }
    }
}

/// What `same_remote` returns.
pub open spec fn same_remote_spec(a: Seq<char>, b: Seq<char>) -> bool {
    match (normalized_remote(a), normalized_remote(b)) {
        (Ok(x), Ok(y)) => x == y,
        _ => trim(a) == trim(b),
    }
}

/// The last segment of a URL (after its last `/` or `:`).
pub open spec fn last_segment(t: Seq<char>) -> Seq<char> {
    let i = if rfind(t, '/') >= rfind(t, ':') {
        rfind(t, '/')
    } else {
        rfind(t, ':')
    };
    t.skip(i + 1)
}

/// What `repo_name_from_url` returns for the URL `u`.
pub open spec fn repo_name_of(u: Seq<char>) -> Result<Seq<char>, Seq<char>> {
    let name = strip_dot_git(last_segment(trimmed_url(u)));
    if name.len() == 0 || name == seq!['.'] || name == seq!['.', '.'] {
        Err("cannot derive a repository name from '"@ + u + "'"@)
    } else {
        Ok(name)
    }
}

/// The views of a `Result` of strings.
pub open spec fn str_result(r: Result<String, String>) -> Result<Seq<char>, Seq<char>> {
    match r {
        Ok(s) => Ok(s@),
        Err(e) => Err(e@),
    }
}

// ---------------------------------------------------------------------------
// Implementation
// ---------------------------------------------------------------------------

fn scheme_sep_chars() -> (res: Vec<char>)
    ensures
        res@ == scheme_sep(),
{
    let mut res: Vec<char> = Vec::new();
    res.push(':');
    res.push('/');
    res.push('/');
    assert(res@ =~= scheme_sep());
    res
}

fn dot_git_chars() -> (res: Vec<char>)
    ensures
        res@ == dot_git(),
{
    let mut res: Vec<char> = Vec::new();
    res.push('.');
    res.push('g');
    res.push('i');
    res.push('t');
    assert(res@ =~= dot_git());
    res
}

/// Splits `v` at its first `c`.
fn split_once_exec(v: &[char], c: char) -> (res: Option<(Vec<char>, Vec<char>)>)
    ensures
        match res {
            Some((a, b)) => split_once(v@, c) == Some((a@, b@)),
            None => split_once(v@, c) is None,
        },
{
    let i = find_char_from(v, c, 0);
    proof {
        lemma_find_from(v@, c, 0);
    }
    if i < v.len() {
        let a = copy_range(v, 0, i);
        let b = copy_range(v, i + 1, v.len());
        assert(a@ =~= v@.take(i as int));
        assert(b@ =~= v@.skip(i + 1));
        Some((a, b))
    } else {
        None
    }
}

/// The authority with any `user@` prefix removed.
fn strip_userinfo(authority: &[char]) -> (res: Vec<char>)
    ensures
        res@ == userinfo_stripped(authority@),
{
    proof {
        lemma_rfind(authority@, '@');
    }
    let n = authority.len();
    match rfind_char(authority, '@') {
        Some(k) => {
            let r = copy_range(authority, k + 1, authority.len());
            assert(r@ =~= authority@.skip(k + 1));
            r
        },
        None => {
            let r = copy_range(authority, 0, authority.len());
            assert(r@ =~= authority@.skip(0));
            r
        },
    }
}

/// Host and repository path after `scheme://`.
fn parse_scheme_url(after_scheme: &[char]) -> (res: Result<(Vec<char>, Vec<char>), String>)
    ensures
        match res {
            Ok((h, p)) => scheme_host_path(after_scheme@) == Some((h@, p@)),
            Err(e) => scheme_host_path(after_scheme@) is None && e@
                == "remote URL is missing a repository path"@,
        },
{
    match split_once_exec(after_scheme, '/') {
        None => Err(owned("remote URL is missing a repository path")),
        Some((authority, path)) => {
            let hp = strip_userinfo(authority.as_slice());
            let host = match split_once_exec(hp.as_slice(), ':') {
                Some((h, _)) => h,
                None => hp,
            };
            Ok((host, path))
        },
    }
}

/// Host and repository path of an scp-style `host:path` remote.
fn parse_scp_like_url(host_part: &[char], path_part: Vec<char>) -> (res: Result<
    (Vec<char>, Vec<char>),
    String,
>)
    ensures
        match res {
            Ok((h, p)) => !has_char(host_part@, '/') && h@ == userinfo_stripped(host_part@) && p@
                == path_part@,
            Err(e) => has_char(host_part@, '/') && e@
                == "local-path remotes are not supported for config lookup"@,
        },
{
    if contains_char(host_part, '/') {
        return Err(owned("local-path remotes are not supported for config lookup"));
    }
    let host = strip_userinfo(host_part);
    Ok((host, path_part))
}

/// The non-empty pieces of `parts`.
fn keep_nonempty(parts: &Vec<Vec<char>>) -> (res: Vec<Vec<char>>)
    ensures
        views(res@) == nonempty_parts(views(parts@)),
{
    let mut res: Vec<Vec<char>> = Vec::new();
    let mut i: usize = 0;
    assert(views(parts@).take(0) =~= Seq::<Seq<char>>::empty());
    while i < parts.len()
        invariant
            i <= parts@.len(),
            views(res@) == nonempty_parts(views(parts@).take(i as int)),
        decreases parts@.len() - i,
    {
        assert(views(parts@).take(i + 1).drop_last() =~= views(parts@).take(i as int));
        if parts[i].len() > 0 {
            let ghost before = views(res@);
            let piece = copy_range(parts[i].as_slice(), 0, parts[i].len());
            assert(piece@ =~= parts@[i as int]@);
            res.push(piece);
            assert(views(res@) =~= before.push(parts@[i as int]@));
        }
        i += 1;
    }
    assert(views(parts@).take(i as int) =~= views(parts@));
    res
}

fn is_bad_part(p: &[char]) -> (res: bool)
    ensures
        res == bad_part(p@),
{
    let dot = one_char('.');
    let mut dots = one_char('.');
    dots.push('.');
    assert(dots@ =~= seq!['.', '.']);
    p.len() == 0 || eq_chars(p, dot.as_slice()) || eq_chars(p, dots.as_slice()) || contains_char(
        p,
        '\\',
    )
}

/// The relative config path `host/owner/repo`, if one can be derived.
fn remote_path(host: &[char], repo_path: &[char]) -> (res: Option<Vec<char>>)
    ensures
        match res {
            Some(r) => remote_path_of(host@, repo_path@) == Some(r@),
            None => remote_path_of(host@, repo_path@) is None,
        },
{
    let h = trim_ws(host);
    if h.len() == 0 {
        return None;
    }
    let pieces = split_on(repo_path, '/');
    let mut path_parts = keep_nonempty(&pieces);
    if path_parts.len() == 0 {
        return None;
    }
    let ghost pp = views(path_parts@);
    let last_idx = path_parts.len() - 1;
    let dg = dot_git_chars();
    let stripped = if ends_with_exec(path_parts[last_idx].as_slice(), dg.as_slice()) {
        let n = path_parts[last_idx].len();
        copy_range(path_parts[last_idx].as_slice(), 0, n - 4)
    } else {
        copy_range(path_parts[last_idx].as_slice(), 0, path_parts[last_idx].len())
    };
    assert(stripped@ =~= strip_dot_git(pp.last()));
    let ghost hv = h@;
    let mut parts: Vec<Vec<char>> = Vec::new();
    parts.push(h);
    let mut i: usize = 0;
    while i < last_idx
        invariant
            last_idx + 1 == path_parts@.len(),
            pp == views(path_parts@),
            i <= last_idx,
            parts@.len() == i + 1,
            parts@[0]@ == hv,
            forall|j: int| 0 <= j < i ==> #[trigger] parts@[j + 1]@ == pp[j],
        decreases last_idx - i,
    {
        let piece = copy_range(path_parts[i].as_slice(), 0, path_parts[i].len());
        assert(piece@ =~= pp[i as int]);
        parts.push(piece);
        i += 1;
    }
    parts.push(stripped);
    let ghost expected = seq![trim(host@)] + pp.update(pp.len() - 1, strip_dot_git(pp.last()));
    assert(views(parts@).len() == expected.len());
    assert forall|j: int| 0 <= j < expected.len() implies views(parts@)[j] == expected[j] by {
        if j > 0 && j < expected.len() - 1 {
            assert(parts@[(j - 1) + 1]@ == pp[j - 1]);
        }
    }
    assert(views(parts@) =~= expected);
    assert(pp == nonempty_parts(split_char(repo_path@, '/')));
    assert(trim(host@).len() > 0);
    let mut k: usize = 0;
    while k < parts.len()
        invariant
            k <= parts@.len(),
            views(parts@) == expected,
            expected == seq![trim(host@)] + pp.update(pp.len() - 1, strip_dot_git(pp.last())),
            pp == nonempty_parts(split_char(repo_path@, '/')),
            pp.len() > 0,
            trim(host@).len() > 0,
            forall|j: int| 0 <= j < k ==> !bad_part(expected[j]),
        decreases parts@.len() - k,
    {
        if is_bad_part(parts[k].as_slice()) {
            assert(bad_part(expected[k as int]));
            assert(exists|j: int| 0 <= j < expected.len() && bad_part(expected[j]));
            assert(remote_parts(host@, repo_path@) is None);
            return None;
        }
        k += 1;
    }
    let slash = one_char('/');
    Some(join_with(parts.as_slice(), slash.as_slice()))
}

/// Normalizes a git remote URL into a repo-shaped relative path
/// (`host/owner/repo`) used to locate the per-repo config file.
pub fn normalize_remote_url(remote_url: &str) -> (res: Result<String, String>)
    ensures
        str_result(res) == normalized_remote(remote_url@),
{
    let u = chars_of(remote_url);
    let t0 = trim_ws(u.as_slice());
    let t = trim_end_char(t0.as_slice(), '/');
    if t.len() == 0 {
        return Err(owned("remote.origin.url is empty"));
    }
    let sep = scheme_sep_chars();
    let k = find_pat(t.as_slice(), sep.as_slice(), 0);
    proof {
        lemma_find_pat_from(t@, scheme_sep(), 0);
    }
    let hp = if k < t.len() {
        let after = copy_range(t.as_slice(), k + 3, t.len());
        assert(after@ =~= t@.skip(k + 3));
        parse_scheme_url(after.as_slice())
    } else {
        match split_once_exec(t.as_slice(), ':') {
            Some((host_part, path_part)) => parse_scp_like_url(host_part.as_slice(), path_part),
            None => Err(concat3(
                "unsupported remote.origin.url '",
                u.as_slice(),
                "'; expected SSH or HTTPS-style Git URL",
            )),
        }
    };
    match hp {
        Err(e) => Err(e),
        Ok((host, path)) => match remote_path(host.as_slice(), path.as_slice()) {
            Some(r) => Ok(string_of(r.as_slice())),
            None => Err(concat3(
                "unsupported remote.origin.url '",
                u.as_slice(),
                "'; could not derive config path",
            )),
        },
    }
}

/// Compares two remote URLs by their normalized host/owner/repo path, so the
/// same repository reached over SSH and HTTPS still matches. Falls back to a
/// literal comparison of the trimmed URLs when either cannot be normalized.
pub fn same_remote(a: &str, b: &str) -> (res: bool)
    ensures
        res == same_remote_spec(a@, b@),
{
    match (normalize_remote_url(a), normalize_remote_url(b)) {
        (Ok(x), Ok(y)) => {
            let xv = chars_of(x.as_str());
            let yv = chars_of(y.as_str());
            eq_chars(xv.as_slice(), yv.as_slice())
        },
        _ => {
            let av = chars_of(a);
            let bv = chars_of(b);
            let at = trim_ws(av.as_slice());
            let bt = trim_ws(bv.as_slice());
            eq_chars(at.as_slice(), bt.as_slice())
        },
    }
}

/// Derives a repository name from a remote URL or local path: the last
/// path segment with any trailing `.git` removed.
pub fn repo_name_from_url(url: &str) -> (res: Result<String, String>)
    ensures
        str_result(res) == repo_name_of(url@),
{
    let u = chars_of(url);
    let t0 = trim_ws(u.as_slice());
    let t = trim_end_char(t0.as_slice(), '/');
    let n = t.len();
    let rs = rfind_char(t.as_slice(), '/');
    let rc = rfind_char(t.as_slice(), ':');
    proof {
        lemma_rfind(t@, '/');
        lemma_rfind(t@, ':');
    }
    let start: usize = match (rs, rc) {
        (Some(a), Some(b)) => if a >= b {
            a + 1
        } else {
            b + 1
        },
        (Some(a), None) => a + 1,
        (None, Some(b)) => b + 1,
        (None, None) => 0,
    };
    let last = copy_range(t.as_slice(), start, t.len());
    assert(last@ =~= last_segment(t@));
    let dg = dot_git_chars();
    let name = if ends_with_exec(last.as_slice(), dg.as_slice()) {
        copy_range(last.as_slice(), 0, last.len() - 4)
    } else {
        last
    };
    assert(name@ =~= strip_dot_git(last@));
    let dot = one_char('.');
    let mut dots = one_char('.');
    dots.push('.');
    assert(dots@ =~= seq!['.', '.']);
    if name.len() == 0 || eq_chars(name.as_slice(), dot.as_slice()) || eq_chars(
        name.as_slice(),
        dots.as_slice(),
    ) {
        return Err(concat3("cannot derive a repository name from '", u.as_slice(), "'"));
    }
    Ok(string_of(name.as_slice()))
}

// ---------------------------------------------------------------------------
// Laws
// ---------------------------------------------------------------------------

/// `same_remote` is reflexive and symmetric.
pub proof fn law_same_remote_reflexive_symmetric(a: Seq<char>, b: Seq<char>)
    ensures
        same_remote_spec(a, a),
        same_remote_spec(a, b) == same_remote_spec(b, a),
{
}

/// Two URLs that both normalize name the same repository exactly when their
/// whole `host/owner/repo` paths are equal: a fork under another owner, or
/// the same name on another host, is another repository. URLs that do not
/// normalize are compared as written, up to surrounding whitespace.
pub proof fn law_same_remote_compares_whole_paths(a: Seq<char>, b: Seq<char>)
    ensures
        normalized_remote(a) is Ok && normalized_remote(b) is Ok ==> (same_remote_spec(a, b)
            <==> normalized_remote(a)->Ok_0 == normalized_remote(b)->Ok_0),
        !(normalized_remote(a) is Ok && normalized_remote(b) is Ok) ==> (same_remote_spec(a, b)
            <==> trim(a) == trim(b)),
{
}

/// The scp-style SSH URL `git@<host>:<path>`.
pub open spec fn scp_url(host: Seq<char>, path: Seq<char>) -> Seq<char> {
    seq!['g', 'i', 't', '@'] + host + seq![':'] + path
}

/// The HTTPS URL `https://<host>/<path>`.
pub open spec fn https_url(host: Seq<char>, path: Seq<char>) -> Seq<char> {
    seq!['h', 't', 't', 'p', 's', ':', '/', '/'] + host + seq!['/'] + path
}

/// What is left of a URL's path once trailing whitespace and slashes are
/// trimmed.
pub open spec fn path_text(path: Seq<char>) -> Seq<char> {
    trim_end_ch(trim(path), '/')
}

/// How a URL made of a prefix and a path trims: only the path's end is cut.
proof fn lemma_trimmed_url_of(x: Seq<char>, p: Seq<char>)
    requires
        x.len() > 0,
        !is_ws(x[0]),
        !is_ws(x.last()),
        trim_end_ch(trim_end(p), '/').len() > 0,
    ensures
        trimmed_url(x + p) == x + trim_end_ch(trim_end(p), '/'),
{
    lemma_trim_end_append(x, p);
    lemma_trim_start_fixed(x + trim_end(p));
    lemma_trim_end_ch_append(x, trim_end(p), '/');
}

/// The scp-style URL comes apart into the host without user info and the
/// trimmed path.
proof fn lemma_scp_host_path(h: Seq<char>, p: Seq<char>)
    requires
        !has_char(h, ':'),
        !has_char(h, '/'),
        forall|i: int| !occurs_at(seq![':'] + p, scheme_sep(), i),
        trim_end_ch(trim_end(p), '/').len() > 0,
    ensures
        url_host_path(trimmed_url(scp_url(h, p)), scp_url(h, p)) == Ok::<
            (Seq<char>, Seq<char>),
            Seq<char>,
        >((userinfo_stripped(h), trim_end_ch(trim_end(p), '/'))),
        trimmed_url(scp_url(h, p)).len() > 0,
{
    let q = trim_end_ch(trim_end(p), '/');
    lemma_trim_end_prefix(p);
    lemma_trim_end_ch_prefix(trim_end(p), '/');
    assert(q == p.take(q.len() as int));
    let hl: int = h.len() as int;
    // scp-style
    let x1 = seq!['g', 'i', 't', '@'] + h + seq![':'];
    assert(scp_url(h, p) =~= x1 + p);
    assert(x1[0] == 'g');
    lemma_trimmed_url_of(x1, p);
    let t1 = x1 + q;
    assert(trimmed_url(scp_url(h, p)) == t1);
    assert forall|i: int| !occurs_at(t1, scheme_sep(), i) by {
        if occurs_at(t1, scheme_sep(), i) {
            assert(t1.subrange(i, i + 3)[0] == ':');
            assert(t1[i] == ':');
            if i < 4 {
                assert(t1[i] == seq!['g', 'i', 't', '@'][i]);
            } else if i < 4 + hl {
                assert(t1[i] == h[i - 4]);
            } else {
                let j = i - 4 - hl;
                let cp = seq![':'] + p;
                assert(t1.subrange(i, i + 3)[1] == t1[i + 1]);
                assert(t1.subrange(i, i + 3)[2] == t1[i + 2]);
                if j >= 1 {
                    assert(t1[i] == q[j - 1] && q[j - 1] == p[j - 1] && cp[j] == p[j - 1]);
                }
                assert(t1[i + 1] == q[j] && q[j] == p[j] && cp[j + 1] == p[j]);
                assert(t1[i + 2] == q[j + 1] && q[j + 1] == p[j + 1] && cp[j + 2] == p[j + 1]);
                assert((seq![':'] + p).subrange(j, j + 3) =~= scheme_sep());
                assert(occurs_at(seq![':'] + p, scheme_sep(), j));
            }
        }
    }
    lemma_find_pat_from(t1, scheme_sep(), 0);
    assert(find_pat_from(t1, scheme_sep(), 0) == t1.len());
    lemma_find_from(t1, ':', 0);
    assert(t1[4 + hl] == ':');
    assert forall|k: int| 0 <= k < 4 + hl implies t1[k] != ':' by {
        if k < 4 {
            assert(t1[k] == seq!['g', 'i', 't', '@'][k]);
        } else {
            assert(t1[k] == h[k - 4]);
        }
    }
    assert(find_from(t1, ':', 0) == 4 + hl);
    let host_part = seq!['g', 'i', 't', '@'] + h;
    assert(t1.take(4 + hl) =~= host_part);
    assert(t1.skip(5 + hl) =~= q);
    assert(!has_char(host_part, '/')) by {
        if has_char(host_part, '/') {
            let k = choose|k: int| 0 <= k < host_part.len() && host_part[k] == '/';
            if k >= 4 {
                assert(h[k - 4] == '/');
            }
        }
    }
    lemma_rfind_append(seq!['g', 'i', 't', '@'], h, '@');
    lemma_rfind(h, '@');
    assert(rfind(seq!['g', 'i', 't', '@'], '@') == 3) by {
        reveal_with_fuel(rfind, 2);
    }
    assert(userinfo_stripped(host_part) =~= userinfo_stripped(h));
}

/// The HTTPS URL comes apart into the host without user info and the
/// trimmed path.
proof fn lemma_https_host_path(h: Seq<char>, p: Seq<char>)
    requires
        !has_char(h, ':'),
        !has_char(h, '/'),
        trim_end_ch(trim_end(p), '/').len() > 0,
    ensures
        url_host_path(trimmed_url(https_url(h, p)), https_url(h, p)) == Ok::<
            (Seq<char>, Seq<char>),
            Seq<char>,
        >((userinfo_stripped(h), trim_end_ch(trim_end(p), '/'))),
        trimmed_url(https_url(h, p)).len() > 0,
{
    let q = trim_end_ch(trim_end(p), '/');
    lemma_trim_end_prefix(p);
    lemma_trim_end_ch_prefix(trim_end(p), '/');
    assert(q == p.take(q.len() as int));
    let hl: int = h.len() as int;
    // HTTPS
    let x2 = seq!['h', 't', 't', 'p', 's', ':', '/', '/'] + h + seq!['/'];
    assert(https_url(h, p) =~= x2 + p);
    assert(x2[0] == 'h');
    lemma_trimmed_url_of(x2, p);
    let t2 = x2 + q;
    assert(trimmed_url(https_url(h, p)) == t2);
    lemma_find_pat_from(t2, scheme_sep(), 0);
    assert(t2.subrange(5, 8) =~= scheme_sep());
    assert(occurs_at(t2, scheme_sep(), 5));
    assert forall|k: int| 0 <= k < 5 implies !occurs_at(t2, scheme_sep(), k) by {
        assert(t2[k] == seq!['h', 't', 't', 'p', 's', ':', '/', '/'][k]);
        assert(t2.subrange(k, k + 3)[0] == t2[k]);
    }
    assert(find_pat_from(t2, scheme_sep(), 0) == 5);
    let after = t2.skip(8);
    assert(after =~= h + seq!['/'] + q);
    lemma_find_from(after, '/', 0);
    assert(after[hl] == '/');
    assert forall|k: int| 0 <= k < hl implies after[k] != '/' by {
        assert(after[k] == h[k]);
    }
    assert(find_from(after, '/', 0) == hl);
    assert(after.take(hl) =~= h);
    assert(after.skip(hl + 1) =~= q);
    let hp = userinfo_stripped(h);
    lemma_rfind(h, '@');
    lemma_find_from(hp, ':', 0);
    assert forall|k: int| 0 <= k < hp.len() implies hp[k] != ':' by {
        assert(hp[k] == h[rfind(h, '@') + 1 + k]);
    }
    assert(split_once(hp, ':') is None);
}

/// With nothing left of the path, the scp-style URL has no repository path
/// to normalize.
proof fn lemma_scp_empty_path(h: Seq<char>, p: Seq<char>)
    requires
        !has_char(h, ':'),
        !has_char(h, '/'),
        trim_end_ch(trim_end(p), '/').len() == 0,
    ensures
        normalized_remote(scp_url(h, p)) is Err,
{
    let hl: int = h.len() as int;
    let x1 = seq!['g', 'i', 't', '@'] + h + seq![':'];
    assert(scp_url(h, p) =~= x1 + p);
    assert(x1[0] == 'g');
    lemma_trim_end_append(x1, p);
    lemma_trim_start_fixed(x1 + trim_end(p));
    crate::text::lemma_trim_end_ch_append_all(x1, trim_end(p), '/');
    assert(trim_end_ch(x1, '/') == x1);
    let t1 = x1;
    assert(trimmed_url(scp_url(h, p)) == t1);
    assert forall|i: int| !occurs_at(t1, scheme_sep(), i) by {
        if occurs_at(t1, scheme_sep(), i) {
            assert(t1.subrange(i, i + 3)[0] == t1[i]);
            if i < 4 {
                assert(t1[i] == seq!['g', 'i', 't', '@'][i]);
            } else {
                assert(t1[i] == h[i - 4]);
            }
        }
    }
    lemma_find_pat_from(t1, scheme_sep(), 0);
    lemma_find_from(t1, ':', 0);
    assert forall|k: int| 0 <= k < 4 + hl implies t1[k] != ':' by {
        if k < 4 {
            assert(t1[k] == seq!['g', 'i', 't', '@'][k]);
        } else {
            assert(t1[k] == h[k - 4]);
        }
    }
    assert(find_from(t1, ':', 0) == 4 + hl);
    assert(t1.skip(5 + hl) =~= Seq::<char>::empty());
    assert(split_char(Seq::<char>::empty(), '/') =~= seq![Seq::<char>::empty()]);
    assert(nonempty_parts(seq![Seq::<char>::empty()]).len() == 0) by {
        reveal_with_fuel(nonempty_parts, 2);
    }
}

/// With nothing left of the path, the HTTPS URL has no repository path to
/// normalize.
proof fn lemma_https_empty_path(h: Seq<char>, p: Seq<char>)
    requires
        !has_char(h, ':'),
        !has_char(h, '/'),
        trim_end_ch(trim_end(p), '/').len() == 0,
    ensures
        normalized_remote(https_url(h, p)) is Err,
{
    let hl: int = h.len() as int;
    let pre = seq!['h', 't', 't', 'p', 's', ':', '/', '/'];
    let x2 = pre + h + seq!['/'];
    assert(https_url(h, p) =~= x2 + p);
    assert(x2[0] == 'h');
    lemma_trim_end_append(x2, p);
    lemma_trim_start_fixed(x2 + trim_end(p));
    crate::text::lemma_trim_end_ch_append_all(x2, trim_end(p), '/');
    assert(x2.drop_last() =~= pre + h);
    if hl > 0 {
        assert((pre + h).last() == h[hl - 1]);
        assert(h[hl - 1] != '/');
        assert(x2.last() == '/');
        assert(trim_end_ch(pre + h, '/') == pre + h);
        assert(trim_end_ch(x2, '/') == pre + h);
        let t2 = pre + h;
        assert(trimmed_url(https_url(h, p)) == t2);
        lemma_find_pat_from(t2, scheme_sep(), 0);
        assert(t2.subrange(5, 8) =~= scheme_sep());
        assert(occurs_at(t2, scheme_sep(), 5));
        assert forall|k: int| 0 <= k < 5 implies !occurs_at(t2, scheme_sep(), k) by {
            assert(t2[k] == pre[k]);
            assert(t2.subrange(k, k + 3)[0] == t2[k]);
        }
        assert(find_pat_from(t2, scheme_sep(), 0) == 5);
        assert(t2.skip(8) =~= h);
        lemma_find_from(h, '/', 0);
    } else {
        assert(x2 =~= pre.push('/'));
        assert(trim_end_ch(x2, '/') =~= seq!['h', 't', 't', 'p', 's', ':']) by {
            let p7 = seq!['h', 't', 't', 'p', 's', ':', '/'];
            let p6 = seq!['h', 't', 't', 'p', 's', ':'];
            assert(x2.drop_last() =~= pre);
            assert(pre.drop_last() =~= p7);
            assert(p7.drop_last() =~= p6);
            assert(trim_end_ch(p6, '/') == p6);
            assert(trim_end_ch(p7, '/') == p6);
            assert(trim_end_ch(pre, '/') == p6);
        }
        let t2 = seq!['h', 't', 't', 'p', 's', ':'];
        assert(trimmed_url(https_url(h, p)) == t2);
        lemma_find_pat_from(t2, scheme_sep(), 0);
        assert forall|k: int| !occurs_at(t2, scheme_sep(), k) by {
            if occurs_at(t2, scheme_sep(), k) {
                assert(t2.subrange(k, k + 3)[1] == t2[k + 1]);
                assert(t2[k + 1] == '/');
            }
        }
        lemma_find_from(t2, ':', 0);
        assert(find_from(t2, ':', 0) == 5);
        assert(t2.skip(6) =~= Seq::<char>::empty());
        assert(split_char(Seq::<char>::empty(), '/') =~= seq![Seq::<char>::empty()]);
        assert(nonempty_parts(seq![Seq::<char>::empty()]).len() == 0) by {
            reveal_with_fuel(nonempty_parts, 2);
        }
    }
}

/// The scp-style SSH URL and the HTTPS URL of the same host and repository
/// path name the same remote: they normalize to the same config path (or
/// both fail to), and `same_remote` matches them. The host holds no `:` or
/// `/`, and the path neither begins with `//` nor holds `://`.
pub proof fn law_ssh_and_https_urls_match(host: Seq<char>, path: Seq<char>)
    requires
        !has_char(host, ':'),
        !has_char(host, '/'),
        forall|i: int| !occurs_at(seq![':'] + path, scheme_sep(), i),
    ensures
        normalized_remote(scp_url(host, path)) is Ok <==> normalized_remote(
            https_url(host, path),
        ) is Ok,
        normalized_remote(scp_url(host, path)) is Ok ==> normalized_remote(scp_url(host, path))
            == normalized_remote(https_url(host, path)),
        normalized_remote(scp_url(host, path)) is Ok ==> same_remote_spec(
            scp_url(host, path),
            https_url(host, path),
        ),
{
    if trim_end_ch(trim_end(path), '/').len() > 0 {
        lemma_scp_host_path(host, path);
        lemma_https_host_path(host, path);
    } else {
        lemma_scp_empty_path(host, path);
        lemma_https_empty_path(host, path);
    }
}

/// The repository name of a URL is the part of the trimmed URL after its
/// last `/` or `:` (all of it when neither occurs), with one `.git` removed;
/// it is refused when that leaves nothing, `.` or `..`.
pub proof fn law_repo_name_is_last_segment(u: Seq<char>)
    ensures
        ({
            let t = trimmed_url(u);
            let seg = last_segment(t);
            let n = strip_dot_git(seg);
            &&& seg.len() <= t.len()
            &&& seg == t.skip(t.len() - seg.len())
            &&& !has_char(seg, '/') && !has_char(seg, ':')
            &&& seg.len() < t.len() ==> (t[t.len() - seg.len() - 1] == '/' || t[t.len() - seg.len()
                - 1] == ':')
            &&& repo_name_of(u) == if n.len() == 0 || n == seq!['.'] || n == seq!['.', '.'] {
                Err::<Seq<char>, Seq<char>>("cannot derive a repository name from '"@ + u + "'"@)
            } else {
                Ok(n)
            }
        }),
{
    let t = trimmed_url(u);
    lemma_rfind(t, '/');
    lemma_rfind(t, ':');
    let i = if rfind(t, '/') >= rfind(t, ':') {
        rfind(t, '/')
    } else {
        rfind(t, ':')
    };
    let seg = last_segment(t);
    assert(seg == t.skip(i + 1));
    assert(seg.len() == t.len() - i - 1);
    assert(seg =~= t.skip(t.len() - seg.len()));
    assert(!has_char(seg, '/')) by {
        if has_char(seg, '/') {
            let k = choose|k: int| 0 <= k < seg.len() && seg[k] == '/';
            assert(seg[k] == t[i + 1 + k]);
        }
    }
    assert(!has_char(seg, ':')) by {
        if has_char(seg, ':') {
            let k = choose|k: int| 0 <= k < seg.len() && seg[k] == ':';
            assert(seg[k] == t[i + 1 + k]);
        }
    }
}

/// `user@host:path`.
pub open spec fn user_scp_url(user: Seq<char>, host: Seq<char>, path: Seq<char>) -> Seq<char> {
    user + seq!['@'] + host + seq![':'] + path
}

/// `ssh://user@host:22/path`.
pub open spec fn ssh_port_url(user: Seq<char>, host: Seq<char>, path: Seq<char>) -> Seq<char> {
    seq!['s', 's', 'h', ':', '/', '/'] + user + seq!['@'] + host + seq![':', '2', '2', '/'] + path
}

/// ` https://host/path/ `: padded with blanks and with a trailing slash.
pub open spec fn padded_https_url(host: Seq<char>, path: Seq<char>) -> Seq<char> {
    seq![' '] + https_url(host, path) + seq!['/', ' ']
}

/// A user or host name: no `@`, `:`, `/` or whitespace.
pub open spec fn plain_name(x: Seq<char>) -> bool {
    &&& !has_char(x, '@')
    &&& !has_char(x, ':')
    &&& !has_char(x, '/')
    &&& forall|i: int| 0 <= i < x.len() ==> !is_ws(#[trigger] x[i])
}

/// A repository path: non-empty, no `:`, neither starting nor ending with
/// `/`, not ending in whitespace.
pub open spec fn plain_repo_path(q: Seq<char>) -> bool {
    &&& q.len() > 0
    &&& !has_char(q, ':')
    &&& q[0] != '/'
    &&& q.last() != '/'
    &&& !is_ws(q.last())
}

/// The user's form `user@host:path` comes apart into the host and path.
proof fn lemma_user_scp_host_path(u: Seq<char>, h: Seq<char>, q: Seq<char>)
    requires
        plain_name(u),
        plain_name(h),
        plain_repo_path(q),
    ensures
        url_host_path(trimmed_url(user_scp_url(u, h, q)), user_scp_url(u, h, q)) == Ok::<
            (Seq<char>, Seq<char>),
            Seq<char>,
        >((h, q)),
        trimmed_url(user_scp_url(u, h, q)).len() > 0,
{
    let ul: int = u.len() as int;
    let hl: int = h.len() as int;
    let x1 = u + seq!['@'] + h + seq![':'];
    assert(user_scp_url(u, h, q) =~= x1 + q);
    assert(!is_ws(x1[0])) by {
        if ul > 0 {
            assert(x1[0] == u[0]);
        }
    }
    assert(trim_end(q) == q);
    assert(trim_end_ch(q, '/') == q);
    lemma_trimmed_url_of(x1, q);
    let t1 = x1 + q;
    let k = ul + 1 + hl;
    assert(t1[k] == ':');
    assert forall|i: int| 0 <= i < t1.len() && i != k implies t1[i] != ':' by {
        if i < ul {
            assert(t1[i] == u[i]);
        } else if i == ul {
            assert(t1[i] == '@');
        } else if i < k {
            assert(t1[i] == h[i - ul - 1]);
        } else {
            assert(t1[i] == q[i - k - 1]);
        }
    }
    assert forall|i: int| !occurs_at(t1, scheme_sep(), i) by {
        if occurs_at(t1, scheme_sep(), i) {
            assert(t1.subrange(i, i + 3)[0] == t1[i]);
            assert(t1.subrange(i, i + 3)[1] == t1[i + 1]);
            if i == k {
                assert(t1[k + 1] == q[0]);
            }
        }
    }
    lemma_find_pat_from(t1, scheme_sep(), 0);
    lemma_find_from(t1, ':', 0);
    assert(find_from(t1, ':', 0) == k);
    let hp = u + seq!['@'] + h;
    assert(t1.take(k) =~= hp);
    assert(t1.skip(k + 1) =~= q);
    assert(!has_char(hp, '/')) by {
        if has_char(hp, '/') {
            let j = choose|j: int| 0 <= j < hp.len() && hp[j] == '/';
            if j < ul {
                assert(hp[j] == u[j]);
            } else if j > ul {
                assert(hp[j] == h[j - ul - 1]);
            }
        }
    }
    lemma_rfind_append(u + seq!['@'], h, '@');
    lemma_rfind(h, '@');
    lemma_rfind(u + seq!['@'], '@');
    assert(rfind(h, '@') < 0) by {
        if rfind(h, '@') >= 0 {
            assert(h[rfind(h, '@')] == '@');
        }
    }
    assert((u + seq!['@'])[ul] == '@');
    assert(rfind(u + seq!['@'], '@') == ul);
    assert(userinfo_stripped(hp) =~= h);
}

/// The form `ssh://user@host:22/path` comes apart into the host and path.
proof fn lemma_ssh_port_host_path(u: Seq<char>, h: Seq<char>, q: Seq<char>)
    requires
        plain_name(u),
        plain_name(h),
        plain_repo_path(q),
    ensures
        url_host_path(trimmed_url(ssh_port_url(u, h, q)), ssh_port_url(u, h, q)) == Ok::<
            (Seq<char>, Seq<char>),
            Seq<char>,
        >((h, q)),
        trimmed_url(ssh_port_url(u, h, q)).len() > 0,
{
    let ul: int = u.len() as int;
    let hl: int = h.len() as int;
    let pre = seq!['s', 's', 'h', ':', '/', '/'];
    let port = seq![':', '2', '2', '/'];
    let x2 = pre + u + seq!['@'] + h + port;
    assert(ssh_port_url(u, h, q) =~= x2 + q);
    assert(x2[0] == 's');
    assert(x2.last() == '/');
    assert(trim_end(q) == q);
    assert(trim_end_ch(q, '/') == q);
    lemma_trimmed_url_of(x2, q);
    let t2 = x2 + q;
    lemma_find_pat_from(t2, scheme_sep(), 0);
    assert(t2.subrange(3, 6) =~= scheme_sep());
    assert(occurs_at(t2, scheme_sep(), 3));
    assert forall|k: int| 0 <= k < 3 implies !occurs_at(t2, scheme_sep(), k) by {
        assert(t2[k] == pre[k]);
        assert(t2.subrange(k, k + 3)[0] == t2[k]);
    }
    assert(find_pat_from(t2, scheme_sep(), 0) == 3);
    let after = t2.skip(6);
    let auth = u + seq!['@'] + h + seq![':', '2', '2'];
    assert(after =~= auth + seq!['/'] + q);
    let al: int = auth.len() as int;
    lemma_find_from(after, '/', 0);
    assert forall|i: int| 0 <= i < al implies after[i] != '/' by {
        assert(after[i] == auth[i]);
        if i < ul {
            assert(auth[i] == u[i]);
        } else if ul < i < ul + 1 + hl {
            assert(auth[i] == h[i - ul - 1]);
        }
    }
    assert(after[al] == '/');
    assert(find_from(after, '/', 0) == al);
    assert(after.take(al) =~= auth);
    assert(after.skip(al + 1) =~= q);
    let hport = h + seq![':', '2', '2'];
    assert(auth =~= (u + seq!['@']) + hport);
    lemma_rfind_append(u + seq!['@'], hport, '@');
    lemma_rfind(hport, '@');
    lemma_rfind(u + seq!['@'], '@');
    assert(rfind(hport, '@') < 0) by {
        if rfind(hport, '@') >= 0 {
            let j = rfind(hport, '@');
            if j < hl {
                assert(hport[j] == h[j]);
            }
        }
    }
    assert((u + seq!['@'])[ul] == '@');
    assert(rfind(u + seq!['@'], '@') == ul);
    assert(userinfo_stripped(auth) =~= hport);
    lemma_find_from(hport, ':', 0);
    assert forall|i: int| 0 <= i < hl implies hport[i] != ':' by {
        assert(hport[i] == h[i]);
    }
    assert(hport[hl] == ':');
    assert(find_from(hport, ':', 0) == hl);
    assert(hport.take(hl) =~= h);
}

/// A host without `@` keeps its whole name.
proof fn lemma_no_userinfo(h: Seq<char>)
    requires
        !has_char(h, '@'),
    ensures
        userinfo_stripped(h) == h,
{
    lemma_rfind(h, '@');
    assert(rfind(h, '@') < 0) by {
        if rfind(h, '@') >= 0 {
            assert(h[rfind(h, '@')] == '@');
        }
    }
    assert(h.skip(0) =~= h);
}

/// Appending text without a separator extends the last piece.
proof fn lemma_split_extend(x: Seq<char>, y: Seq<char>, c: char)
    requires
        !has_char(y, c),
    ensures
        split_char(x + y, c) == split_char(x, c).update(
            split_char(x, c).len() - 1,
            split_char(x, c).last() + y,
        ),
    decreases y.len(),
{
    crate::text::lemma_split_nonempty(x, c);
    let sx = split_char(x, c);
    if y.len() == 0 {
        assert(x + y =~= x);
        assert(sx.last() + y =~= sx.last());
        assert(sx.update(sx.len() - 1, sx.last()) =~= sx);
    } else {
        assert(!has_char(y.drop_last(), c)) by {
            if has_char(y.drop_last(), c) {
                let k = choose|k: int| 0 <= k < y.drop_last().len() && y.drop_last()[k] == c;
                assert(y[k] == c);
            }
        }
        assert(y.last() != c) by {
            assert(y[y.len() - 1] == y.last());
        }
        lemma_split_extend(x, y.drop_last(), c);
        assert((x + y).drop_last() =~= x + y.drop_last());
        assert((x + y).last() == y.last());
        let r = sx.update(sx.len() - 1, sx.last() + y.drop_last());
        assert(r.last() == sx.last() + y.drop_last());
        assert((sx.last() + y.drop_last()).push(y.last()) =~= sx.last() + y);
        assert(r.update(r.len() - 1, r.last().push(y.last())) =~= sx.update(
            sx.len() - 1,
            sx.last() + y,
        ));
    }
}

/// The last piece of a split is a suffix of the text.
proof fn lemma_split_last_suffix(q: Seq<char>, c: char)
    ensures
        split_char(q, c).last().len() <= q.len(),
        split_char(q, c).last() == q.skip(q.len() - split_char(q, c).last().len()),
        q.len() > 0 && q.last() != c ==> split_char(q, c).last().len() > 0,
    decreases q.len(),
{
    crate::text::lemma_split_nonempty(q, c);
    if q.len() == 0 {
        assert(split_char(q, c).last() =~= q.skip(0));
    } else {
        lemma_split_last_suffix(q.drop_last(), c);
        crate::text::lemma_split_nonempty(q.drop_last(), c);
        let r = split_char(q.drop_last(), c);
        if q.last() == c {
            assert(split_char(q, c).last() =~= Seq::<char>::empty());
            assert(q.skip(q.len() as int) =~= Seq::<char>::empty());
        } else {
            assert(split_char(q, c).last() == r.last().push(q.last()));
            assert(r.last().push(q.last()) =~= q.skip(q.len() - r.last().len() - 1));
        }
    }
}

/// A `.git` added to a path whose last segment has none is dropped again.
proof fn lemma_dot_git_path(h: Seq<char>, q: Seq<char>)
    requires
        q.len() > 0,
        q.last() != '/',
        !ends_with(q, dot_git()),
    ensures
        remote_path_of(h, q + dot_git()) == remote_path_of(h, q),
{
    assert(!has_char(dot_git(), '/')) by {
        if has_char(dot_git(), '/') {
            let k = choose|k: int| 0 <= k < 4 && dot_git()[k] == '/';
        }
    }
    lemma_split_extend(q, dot_git(), '/');
    lemma_split_last_suffix(q, '/');
    crate::text::lemma_split_nonempty(q, '/');
    let sq = split_char(q, '/');
    let s = sq.last();
    let sg = s + dot_git();
    let sgq = split_char(q + dot_git(), '/');
    assert(sgq == sq.update(sq.len() - 1, sg));
    // the non-empty pieces differ only in the last one
    assert(sq =~= sq.drop_last().push(s));
    assert(sgq =~= sq.drop_last().push(sg));
    let d = nonempty_parts(sq.drop_last());
    assert(sq.drop_last().push(s).drop_last() =~= sq.drop_last());
    assert(sq.drop_last().push(sg).drop_last() =~= sq.drop_last());
    assert(nonempty_parts(sq) == d.push(s));
    assert(nonempty_parts(sgq) == d.push(sg));
    let pq = d.push(s);
    let pg = d.push(sg);
    assert(strip_dot_git(sg) =~= s) by {
        assert(ends_with(sg, dot_git())) by {
            assert(sg.skip(sg.len() - 4) =~= dot_git());
        }
        assert(sg.take(sg.len() - 4) =~= s);
    }
    assert(!ends_with(s, dot_git())) by {
        if ends_with(s, dot_git()) {
            assert(q.skip(q.len() - 4) =~= s.skip(s.len() - 4));
        }
    }
    assert(strip_dot_git(s) == s);
    assert(pq.update(pq.len() - 1, strip_dot_git(pq.last())) =~= pg.update(
        pg.len() - 1,
        strip_dot_git(pg.last()),
    ));
}

/// The other spellings of a remote name the same config path as
/// `https://host/path`: the scp form with any user, `ssh://` with a user
/// and port 22, the URL padded with blanks and given a trailing slash, and
/// (when the path does not already end in `.git`) a `.git` suffix. The user
/// and host hold no `@`, `:`, `/` or whitespace; the path holds no `:`,
/// neither starts nor ends with `/`, does not end in whitespace, and the
/// HTTPS URL normalizes.
pub proof fn law_remote_spellings_match(user: Seq<char>, host: Seq<char>, path: Seq<char>)
    requires
        plain_name(user),
        plain_name(host),
        host.len() > 0,
        plain_repo_path(path),
        normalized_remote(https_url(host, path)) is Ok,
    ensures
        normalized_remote(user_scp_url(user, host, path)) == normalized_remote(
            https_url(host, path),
        ),
        normalized_remote(ssh_port_url(user, host, path)) == normalized_remote(
            https_url(host, path),
        ),
        normalized_remote(padded_https_url(host, path)) == normalized_remote(
            https_url(host, path),
        ),
        !ends_with(path, dot_git()) ==> normalized_remote(https_url(host, path + dot_git()))
            == normalized_remote(https_url(host, path)),
{
    let q = path;
    let h = host;
    assert(trim_end(q) == q);
    assert(trim_end_ch(q, '/') == q);
    lemma_https_host_path(h, q);
    lemma_no_userinfo(h);
    lemma_user_scp_host_path(user, h, q);
    lemma_ssh_port_host_path(user, h, q);
    // padded
    let x = https_url(h, q);
    let v = padded_https_url(h, q);
    assert(x.last() == q.last());
    assert(x[0] == 'h');
    assert(v.drop_last() =~= seq![' '] + x + seq!['/']);
    assert(trim_end(v) == trim_end(v.drop_last()));
    assert(trim_end(v.drop_last()) == v.drop_last());
    assert((seq![' '] + x + seq!['/']).drop_first() =~= x + seq!['/']);
    assert(trim_start(x + seq!['/']) == x + seq!['/']) by {
        lemma_trim_start_fixed(x + seq!['/']);
    }
    assert(trim(v) == x + seq!['/']);
    assert((x + seq!['/']).drop_last() =~= x);
    assert(trim_end_ch(x, '/') == x);
    assert(trimmed_url(v) == x);
    assert(trim_end(x) == x);
    lemma_trim_start_fixed(x);
    assert(trimmed_url(x) == x);
    // .git
    if !ends_with(q, dot_git()) {
        let qg = q + dot_git();
        assert(qg.last() == 't');
        assert(trim_end(qg) == qg);
        assert(trim_end_ch(qg, '/') == qg);
        lemma_https_host_path(h, qg);
        lemma_dot_git_path(h, q);
    }
}

/// The repository path a URL comes apart into is what follows a `/` or `:`
/// at the end of the trimmed URL.
proof fn lemma_url_path_suffix(t: Seq<char>, u: Seq<char>)
    requires
        url_host_path(t, u) is Ok,
    ensures
        ({
            let path = url_host_path(t, u)->Ok_0.1;
            &&& path.len() < t.len()
            &&& path == t.skip(t.len() - path.len())
            &&& (t[t.len() - path.len() - 1] == '/' || t[t.len() - path.len() - 1] == ':')
        }),
{
    let k = find_pat_from(t, scheme_sep(), 0);
    lemma_find_pat_from(t, scheme_sep(), 0);
    if k < t.len() {
        let after = t.skip(k + 3);
        lemma_find_from(after, '/', 0);
        let j = find_from(after, '/', 0);
        let path = after.skip(j + 1);
        assert(path =~= t.skip(k + 3 + j + 1));
        assert(t.len() - path.len() - 1 == k + 3 + j);
        assert(t[k + 3 + j] == after[j]);
        assert(path =~= t.skip(t.len() - path.len()));
    } else {
        lemma_find_from(t, ':', 0);
        let i = find_from(t, ':', 0);
        let path = t.skip(i + 1);
        assert(path =~= t.skip(t.len() - path.len()));
    }
}

/// The repository name of a URL that normalizes is the last component of
/// its config path, when that component holds no `:`.
pub proof fn law_repo_name_matches_config_path(u: Seq<char>)
    requires
        normalized_remote(u) is Ok,
        !has_char(
            remote_parts(
                url_host_path(trimmed_url(u), u)->Ok_0.0,
                url_host_path(trimmed_url(u), u)->Ok_0.1,
            )->Some_0.last(),
            ':',
        ),
    ensures
        remote_parts(
            url_host_path(trimmed_url(u), u)->Ok_0.0,
            url_host_path(trimmed_url(u), u)->Ok_0.1,
        ) is Some,
        repo_name_of(u) == Ok::<Seq<char>, Seq<char>>(
            remote_parts(
                url_host_path(trimmed_url(u), u)->Ok_0.0,
                url_host_path(trimmed_url(u), u)->Ok_0.1,
            )->Some_0.last(),
        ),
{
    let t = trimmed_url(u);
    let (h, path) = url_host_path(t, u)->Ok_0;
    let parts = remote_parts(h, path)->Some_0;
    lemma_url_path_suffix(t, u);
    let pl = path.len();
    // the URL ends in the path's last character, which is no slash
    lemma_trim_end_ch_last(trim(u), '/');
    crate::text::lemma_split_nonempty(path, '/');
    let sp = split_char(path, '/');
    lemma_split_last_suffix(path, '/');
    crate::text::lemma_split_pieces(path, '/');
    let sl = sp.last();
    assert(pl > 0) by {
        if pl == 0 {
            assert(sp =~= seq![Seq::<char>::empty()]);
            reveal_with_fuel(nonempty_parts, 2);
        }
    }
    assert(path.last() == t.last());
    assert(sl.len() > 0);
    assert(sp =~= sp.drop_last().push(sl));
    assert(nonempty_parts(sp).last() == sl);
    let c = parts.last();
    assert(c == strip_dot_git(sl));
    assert(!has_char(sl, '/')) by {
        assert(sp[sp.len() - 1] == sl);
    }
    assert(!has_char(sl, ':')) by {
        if has_char(sl, ':') {
            let k = choose|k: int| 0 <= k < sl.len() && sl[k] == ':';
            if ends_with(sl, dot_git()) {
                assert(sl.take(sl.len() - 4)[k] == sl[k] || k >= sl.len() - 4);
                if k >= sl.len() - 4 {
                    assert(sl.skip(sl.len() - 4)[k - (sl.len() - 4)] == sl[k]);
                } else {
                    assert(c[k] == ':');
                }
            } else {
                assert(c[k] == ':');
            }
        }
    }
    // the last segment of the URL is that last piece
    let sll = sl.len() as int;
    assert(sl =~= t.skip(t.len() - sll)) by {
        assert(sl =~= path.skip(pl - sll));
    }
    let pos = t.len() - sll - 1;
    assert(pos >= 0);
    assert(t[pos] == '/' || t[pos] == ':') by {
        if sll < pl {
            assert(path[pl - sll - 1] == t[pos]);
            // the piece before the last one ends at a separator
            assert(path[pl - sll - 1] == '/') by {
                if path[pl - sll - 1] != '/' {
                    lemma_last_piece_bound(path, sll);
                }
            }
        }
    }
    lemma_rfind(t, '/');
    lemma_rfind(t, ':');
    assert forall|k: int| pos < k < t.len() implies t[k] != '/' && t[k] != ':' by {
        assert(t[k] == sl[k - pos - 1]);
    }
    assert(rfind(t, '/') >= rfind(t, ':') ==> rfind(t, '/') == pos);
    assert(rfind(t, '/') < rfind(t, ':') ==> rfind(t, ':') == pos);
    assert(last_segment(t) =~= sl);
    assert(c.len() > 0 && c != seq!['.'] && c != seq!['.', '.']) by {
        assert(parts[parts.len() - 1] == c);
        assert(!bad_part(parts[parts.len() - 1]));
    }
}

/// What `trim_end_ch` leaves does not end in that character.
proof fn lemma_trim_end_ch_last(s: Seq<char>, ch: char)
    ensures
        trim_end_ch(s, ch).len() > 0 ==> trim_end_ch(s, ch).last() != ch,
    decreases s.len(),
{
    if s.len() > 0 && s.last() == ch {
        lemma_trim_end_ch_last(s.drop_last(), ch);
    }
}

/// The last piece of a split is everything after the last separator: the
/// character before it, if any, is the separator.
proof fn lemma_last_piece_bound(q: Seq<char>, n: int)
    requires
        n == split_char(q, '/').last().len(),
        n < q.len(),
    ensures
        q[q.len() - n - 1] == '/',
    decreases q.len(),
{
    crate::text::lemma_split_nonempty(q, '/');
    if q.last() == '/' {
        assert(split_char(q, '/').last() =~= Seq::<char>::empty());
    } else {
        crate::text::lemma_split_nonempty(q.drop_last(), '/');
        let r = split_char(q.drop_last(), '/');
        assert(split_char(q, '/').last() == r.last().push(q.last()));
        lemma_last_piece_bound(q.drop_last(), n - 1);
        assert(q.drop_last()[q.drop_last().len() - (n - 1) - 1] == q[q.len() - n - 1]);
    }
}

} // verus!
