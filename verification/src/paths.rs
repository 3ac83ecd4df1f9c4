//! Lexical handling of paths, held as strings: the components of a
//! path, `.`/`..` resolution without touching the filesystem, joining,
//! prefix tests and the relative `mapping` stored in the config.
//!
//! The model reads `/` as the separator; on Windows, where `\` separates
//! components too, a path is read with each `\` taken as `/`, and a path
//! the library builds from components is written back with `\`. A drive
//! prefix such as `C:` is read as a first component, except where a path
//! is joined onto another (`join_on`).

use vstd::prelude::*;

use crate::text::{
    chars_of, concat3, copy_range, eq_chars, join, join_with, one_char, owned, push_all,
    split_char, split_on, string_of, views, lemma_views_push,
};

verus! {

// ---------------------------------------------------------------------------
// Specifications
// ---------------------------------------------------------------------------

/// Whether a path has a root (starts with `/`).
pub open spec fn path_is_abs(p: Seq<char>) -> bool {
    p.len() > 0 && p[0] == '/'
}

/// `..`.
pub open spec fn dot_dot() -> Seq<char> {
    seq!['.', '.']
}

/// The components left after walking the `/`-separated pieces in order:
/// empty pieces and `.` are skipped, `..` drops the last kept component (if
/// any), anything else is kept.
pub open spec fn resolve_pieces(pieces: Seq<Seq<char>>) -> Seq<Seq<char>>
    decreases pieces.len(),
{
    if pieces.len() == 0 {
        pieces
    } else {
        let r = resolve_pieces(pieces.drop_last());
        let x = pieces.last();
        if x.len() == 0 || x == seq!['.'] {
            r
        } else if x == dot_dot() {
            if r.len() > 0 {
                r.drop_last()
            } else {
                r
            }
        } else {
            r.push(x)
        }
    }
}

/// The normal components of `p` after lexical normalization.
pub open spec fn norm_comps(p: Seq<char>) -> Seq<Seq<char>> {
    resolve_pieces(split_char(p, '/'))
}

/// The text of a path with the given root flag and normal components.
pub open spec fn render(abs: bool, comps: Seq<Seq<char>>) -> Seq<char> {
    (if abs {
        seq!['/']
    } else {
        Seq::<char>::empty()
    }) + join(comps, seq!['/'])
}

/// What `normalize_lexically` returns.
pub open spec fn normalized(p: Seq<char>) -> Seq<char> {
    render(path_is_abs(p), norm_comps(p))
}

/// `Path::join`: an absolute `p` replaces `base`; otherwise a `/` is put
/// between them unless `base` is empty or already ends with one.
pub open spec fn join_path(base: Seq<char>, p: Seq<char>) -> Seq<char> {
    if path_is_abs(p) {
        p
    } else if base.len() > 0 && base.last() != '/' {
        base + seq!['/'] + p
    } else {
        base + p
    }
}

/// A Windows drive prefix such as `C:` at the start of a path.
pub open spec fn has_drive(p: Seq<char>) -> bool {
    p.len() >= 2 && p[1] == ':' && is_ascii_alpha(p[0])
}

/// `Path::join` on the platform, over texts in the model's form. On Windows
/// a path with a drive prefix replaces the base, and one that starts at the
/// root replaces all of the base but its drive; elsewhere, and for other
/// paths, as `join_path`.
pub open spec fn join_on(base: Seq<char>, p: Seq<char>, windows: bool) -> Seq<char> {
    if windows && has_drive(p) {
        p
    } else if windows && path_is_abs(p) && has_drive(base) {
        base.take(2) + p
    } else {
        join_path(base, p)
    }
}

/// `comps` is a prefix of `of`.
pub open spec fn comps_prefix(comps: Seq<Seq<char>>, of: Seq<Seq<char>>) -> bool {
    comps.len() <= of.len() && of.take(comps.len() as int) == comps
}

/// `Path::starts_with` on normalized paths: the base's components (its root
/// among them) come first in the path's. The empty relative path is a prefix
/// of every path.
pub open spec fn path_prefix(
    abs: bool,
    comps: Seq<Seq<char>>,
    base_abs: bool,
    base_comps: Seq<Seq<char>>,
) -> bool {
    (abs == base_abs || (!base_abs && base_comps.len() == 0)) && comps_prefix(base_comps, comps)
}

/// The pieces that `Path::strip_prefix` leaves when the base is a prefix:
/// the remaining components, with a leading `/` for a root the base lacked.
pub open spec fn rel_pieces(
    abs: bool,
    comps: Seq<Seq<char>>,
    base_abs: bool,
    base_comps: Seq<Seq<char>>,
) -> Seq<Seq<char>> {
    if abs && !base_abs {
        seq![seq!['/']] + comps
    } else {
        comps.skip(base_comps.len() as int)
    }
}

/// What `relative_mapping` returns for a parent repository and a target.
pub open spec fn mapping_for(parent: Seq<char>, target: Seq<char>) -> Result<Seq<char>, Seq<char>> {
    let pa = path_is_abs(parent);
    let pc = norm_comps(parent);
    let ta = path_is_abs(target);
    let tc = norm_comps(target);
    if !path_prefix(ta, tc, pa, pc) {
        Err(
            "target directory "@ + render(ta, tc) + " is outside the parent repository "@ + render(
                pa,
                pc,
            ),
        )
    } else if rel_pieces(ta, tc, pa, pc).len() == 0 {
        Err("target directory is the parent repository root"@)
    } else {
        Ok(join(rel_pieces(ta, tc, pa, pc), seq!['/']) + seq!['/'])
    }
}

/// A path's text in the form the model reads: on Windows, where `\` is a
/// separator too, every `\` becomes `/`; elsewhere the text as it is.
pub open spec fn model_path(p: Seq<char>, windows: bool) -> Seq<char> {
    if windows {
        Seq::new(p.len(), |i: int| if p[i] == '\\' { '/' } else { p[i] })
    } else {
        p
    }
}

/// A path built from components, written with the platform's separator:
/// `\` on Windows, `/` elsewhere.
pub open spec fn native_path(p: Seq<char>, windows: bool) -> Seq<char> {
    if windows {
        Seq::new(p.len(), |i: int| if p[i] == '/' { '\\' } else { p[i] })
    } else {
        p
    }
}

/// What `relative_mapping` returns on the platform: the mapping of the
/// model texts, its refusal written with the platform's separator.
pub open spec fn mapping_on(parent: Seq<char>, target: Seq<char>, windows: bool) -> Result<
    Seq<char>,
    Seq<char>,
> {
    match mapping_for(model_path(parent, windows), model_path(target, windows)) {
        Ok(m) => Ok(m),
        Err(e) => Err(native_path(e, windows)),
    }
}

/// What `is_portable_relative_path` returns.
pub open spec fn portable_relative(p: Seq<char>) -> bool {
    &&& !(p.len() > 0 && (p[0] == '/' || p[0] == '\\'))
    &&& !(p.len() >= 2 && p[1] == ':' && is_ascii_alpha(p[0]))
}

/// ASCII letter.
pub open spec fn is_ascii_alpha(c: char) -> bool {
    ('a' <= c && c <= 'z') || ('A' <= c && c <= 'Z')
}

// ---------------------------------------------------------------------------
// Implementation
// ---------------------------------------------------------------------------

/// Root flag and normal components of a path after lexical normalization.
pub fn norm_parts(p: &[char]) -> (res: (bool, Vec<Vec<char>>))
    ensures
        res.0 == path_is_abs(p@),
        views(res.1@) == norm_comps(p@),
{
    let pieces = split_on(p, '/');
    let mut out: Vec<Vec<char>> = Vec::new();
    let mut i: usize = 0;
    let dot = one_char('.');
    let mut dots = one_char('.');
    dots.push('.');
    assert(dots@ =~= dot_dot());
    assert(views(pieces@).take(0) =~= Seq::<Seq<char>>::empty());
    while i < pieces.len()
        invariant
            i <= pieces@.len(),
            dot@ == seq!['.'],
            dots@ == dot_dot(),
            views(out@) == resolve_pieces(views(pieces@).take(i as int)),
        decreases pieces@.len() - i,
    {
        assert(views(pieces@).take(i + 1).drop_last() =~= views(pieces@).take(i as int));
        assert(views(pieces@).take(i + 1).last() == pieces@[i as int]@);
        let ghost before = views(out@);
        let piece = pieces[i].as_slice();
        if piece.len() == 0 || eq_chars(piece, dot.as_slice()) {
        } else if eq_chars(piece, dots.as_slice()) {
            if out.len() > 0 {
                out.pop();
                assert(views(out@) =~= before.drop_last());
            }
        } else {
            let c = copy_range(piece, 0, piece.len());
            assert(c@ =~= pieces@[i as int]@);
            out.push(c);
            assert(views(out@) =~= before.push(pieces@[i as int]@));
        }
        i += 1;
    }
    assert(views(pieces@).take(i as int) =~= views(pieces@));
    (p.len() > 0 && p[0] == '/', out)
}

/// The text of a path with the given root flag and components.
pub fn render_parts(abs: bool, comps: &[Vec<char>]) -> (res: Vec<char>)
    ensures
        res@ == render(abs, views(comps@)),
{
    let mut res: Vec<char> = Vec::new();
    if abs {
        res.push('/');
    }
    let slash = one_char('/');
    let joined = join_with(comps, slash.as_slice());
    push_all(&mut res, joined.as_slice());
    if abs {
        assert(res@ =~= render(abs, views(comps@)));
    } else {
        assert(res@ =~= render(abs, views(comps@)));
    }
    res
}

/// A path's text in the form the model reads (`\` read as `/` on Windows).
pub fn to_model(path: &str, windows: bool) -> (res: Vec<char>)
    ensures
        res@ == model_path(path@, windows),
{
    let v = chars_of(path);
    model_chars(v.as_slice(), windows)
}

/// Characters of a path in the form the model reads.
pub fn model_chars(v: &[char], windows: bool) -> (res: Vec<char>)
    ensures
        res@ == model_path(v@, windows),
{
    let mut out: Vec<char> = Vec::new();
    let mut i: usize = 0;
    while i < v.len()
        invariant
            i <= v@.len(),
            out@ == model_path(v@, windows).take(i as int),
        decreases v@.len() - i,
    {
        out.push(if windows && v[i] == '\\' { '/' } else { v[i] });
        assert(out@ =~= model_path(v@, windows).take(i + 1));
        i += 1;
    }
    assert(out@ =~= model_path(v@, windows));
    out
}

/// Text written with the platform's separator.
pub fn to_native(v: &[char], windows: bool) -> (res: Vec<char>)
    ensures
        res@ == native_path(v@, windows),
{
    let mut out: Vec<char> = Vec::new();
    let mut i: usize = 0;
    while i < v.len()
        invariant
            i <= v@.len(),
            out@ == (if windows {
                native_path(v@, true).take(i as int)
            } else {
                v@.take(i as int)
            }),
        decreases v@.len() - i,
    {
        out.push(if windows && v[i] == '/' { '\\' } else { v[i] });
        assert(out@ =~= (if windows {
            native_path(v@, true).take(i + 1)
        } else {
            v@.take(i + 1)
        }));
        i += 1;
    }
    assert(out@ =~= native_path(v@, windows));
    out
}

/// Resolves `.` and `..` components without touching the filesystem, so
/// paths that do not exist yet can still be compared. On Windows `\` is a
/// separator too, and the result is written with `\`.
pub fn normalize_lexically(path: &str, windows: bool) -> (res: String)
    ensures
        res@ == native_path(normalized(model_path(path@, windows)), windows),
{
    let p = to_model(path, windows);
    let (abs, comps) = norm_parts(p.as_slice());
    let r = render_parts(abs, comps.as_slice());
    let n = to_native(r.as_slice(), windows);
    string_of(n.as_slice())
}

/// Whether `comps` is a prefix of `of`.
pub fn comps_prefix_exec(comps: &[Vec<char>], of: &[Vec<char>]) -> (res: bool)
    ensures
        res == comps_prefix(views(comps@), views(of@)),
{
    if comps.len() > of.len() {
        return false;
    }
    let mut i: usize = 0;
    while i < comps.len()
        invariant
            comps@.len() <= of@.len(),
            i <= comps@.len(),
            forall|j: int| 0 <= j < i ==> comps@[j]@ == of@[j]@,
        decreases comps@.len() - i,
    {
        if !eq_chars(comps[i].as_slice(), of[i].as_slice()) {
            assert(views(of@).take(comps@.len() as int)[i as int] != views(comps@)[i as int]);
            return false;
        }
        i += 1;
    }
    assert(views(of@).take(comps@.len() as int) =~= views(comps@));
    true
}

/// `Path::starts_with` on normalized paths.
pub fn path_prefix_exec(
    abs: bool,
    comps: &[Vec<char>],
    base_abs: bool,
    base_comps: &[Vec<char>],
) -> (res: bool)
    ensures
        res == path_prefix(abs, views(comps@), base_abs, views(base_comps@)),
{
    (abs == base_abs || (!base_abs && base_comps.len() == 0)) && comps_prefix_exec(
        base_comps,
        comps,
    )
}

/// `Path::join`.
pub fn join_path_exec(base: &[char], p: &[char]) -> (res: Vec<char>)
    ensures
        res@ == join_path(base@, p@),
{
    if p.len() > 0 && p[0] == '/' {
        return copy_range(p, 0, p.len());
    }
    let mut res = copy_range(base, 0, base.len());
    if base.len() > 0 && base[base.len() - 1] != '/' {
        res.push('/');
    }
    push_all(&mut res, p);
    assert(base@.subrange(0, base@.len() as int) =~= base@);
    res
}

/// `Path::join` on the platform (see `join_on`).
pub fn join_on_exec(base: &[char], p: &[char], windows: bool) -> (res: Vec<char>)
    ensures
        res@ == join_on(base@, p@, windows),
{
    if windows && p.len() >= 2 && p[1] == ':' && (('a' <= p[0] && p[0] <= 'z') || ('A' <= p[0]
        && p[0] <= 'Z')) {
        return copy_range(p, 0, p.len());
    }
    if windows && p.len() > 0 && p[0] == '/' && base.len() >= 2 && base[1] == ':' && (('a'
        <= base[0] && base[0] <= 'z') || ('A' <= base[0] && base[0] <= 'Z')) {
        let mut res = copy_range(base, 0, 2);
        push_all(&mut res, p);
        return res;
    }
    join_path_exec(base, p)
}

/// Returns whether a mapping is safe to store in the config: relative on
/// every platform (no leading slash or backslash, no Windows drive prefix).
pub fn is_portable_relative_path(path: &str) -> (res: bool)
    ensures
        res == portable_relative(path@),
{
    let p = chars_of(path);
    if p.len() > 0 && (p[0] == '/' || p[0] == '\\') {
        return false;
    }
    !(p.len() >= 2 && p[1] == ':' && (('a' <= p[0] && p[0] <= 'z') || ('A' <= p[0] && p[0]
        <= 'Z')))
}

/// The mapping of a target under a parent, both in model form.
pub fn mapping_between(pv: &[char], tv: &[char]) -> (res: Result<Vec<char>, Vec<char>>)
    ensures
        match res {
            Ok(m) => mapping_for(pv@, tv@) == Ok::<Seq<char>, Seq<char>>(m@),
            Err(e) => mapping_for(pv@, tv@) == Err::<Seq<char>, Seq<char>>(e@),
        },
{
    let (pa, pc) = norm_parts(pv);
    let (ta, tc) = norm_parts(tv);
    if !path_prefix_exec(ta, tc.as_slice(), pa, pc.as_slice()) {
        let tr = render_parts(ta, tc.as_slice());
        let pr = render_parts(pa, pc.as_slice());
        let mut msg = chars_of("target directory ");
        push_all(&mut msg, tr.as_slice());
        let tail = concat3(" is outside the parent repository ", pr.as_slice(), "");
        let tailv = chars_of(tail.as_str());
        push_all(&mut msg, tailv.as_slice());
        assert(msg@ =~= "target directory "@ + render(ta, views(tc@))
            + " is outside the parent repository "@ + render(pa, views(pc@)) + ""@);
        assert(""@ == Seq::<char>::empty()) by {
            reveal_strlit("");
        }
        assert(msg@ =~= "target directory "@ + render(ta, views(tc@))
            + " is outside the parent repository "@ + render(pa, views(pc@)));
        return Err(msg);
    }
    let mut rel: Vec<Vec<char>> = Vec::new();
    let ghost tcv = views(tc@);
    if ta && !pa {
        rel.push(one_char('/'));
        let mut i: usize = 0;
        while i < tc.len()
            invariant
                i <= tc@.len(),
                tcv == views(tc@),
                views(rel@) == seq![seq!['/']] + tcv.take(i as int),
            decreases tc@.len() - i,
        {
            let ghost before = views(rel@);
            let c = copy_range(tc[i].as_slice(), 0, tc[i].len());
            assert(c@ =~= tcv[i as int]);
            let ghost old_rel = rel@;
            rel.push(c);
            proof {
                lemma_views_push(old_rel, c);
            }
            assert(views(rel@) =~= seq![seq!['/']] + tcv.take(i + 1));
            i += 1;
        }
        assert(tcv.take(i as int) =~= tcv);
    } else {
        let mut i: usize = pc.len();
        while i < tc.len()
            invariant
                pc@.len() <= i <= tc@.len(),
                tcv == views(tc@),
                views(rel@) == tcv.subrange(pc@.len() as int, i as int),
            decreases tc@.len() - i,
        {
            let c = copy_range(tc[i].as_slice(), 0, tc[i].len());
            assert(c@ =~= tcv[i as int]);
            let ghost old_rel = rel@;
            rel.push(c);
            proof {
                lemma_views_push(old_rel, c);
            }
            assert(views(rel@) =~= tcv.subrange(pc@.len() as int, i + 1));
            i += 1;
        }
        assert(tcv.subrange(pc@.len() as int, i as int) =~= tcv.skip(pc@.len() as int));
    }
    assert(views(rel@) == rel_pieces(ta, views(tc@), pa, views(pc@)));
    if rel.len() == 0 {
        return Err(chars_of("target directory is the parent repository root"));
    }
    let slash = one_char('/');
    let mut m = join_with(rel.as_slice(), slash.as_slice());
    let ghost j = m@;
    m.push('/');
    assert(m@ =~= j + seq!['/']);
    Ok(m)
}

/// Resolves `target` against the parent repo root and returns the config
/// `mapping` string: forward-slash separated, relative, with a trailing `/`.
/// On Windows `\` is a separator too, and the refusal names the paths with
/// `\`.
pub fn relative_mapping(parent_repo: &str, target: &str, windows: bool) -> (res: Result<
    String,
    String,
>)
    ensures
        match res {
            Ok(m) => mapping_on(parent_repo@, target@, windows) == Ok::<Seq<char>, Seq<char>>(m@),
            Err(e) => mapping_on(parent_repo@, target@, windows) == Err::<Seq<char>, Seq<char>>(
                e@,
            ),
        },
{
    let pv = to_model(parent_repo, windows);
    let tv = to_model(target, windows);
    match mapping_between(pv.as_slice(), tv.as_slice()) {
        Ok(m) => Ok(string_of(m.as_slice())),
        Err(e) => {
            let n = to_native(e.as_slice(), windows);
            Err(string_of(n.as_slice()))
        },
    }
}

// ---------------------------------------------------------------------------
// Laws
// ---------------------------------------------------------------------------

/// A component that normalization keeps: non-empty, neither `.` nor `..`,
/// and without a `/`.
pub open spec fn normal_comp(x: Seq<char>) -> bool {
    x.len() > 0 && x != seq!['.'] && x != dot_dot() && !crate::text::has_char(x, '/')
}

/// Normal components are kept as they are after whatever came before.
proof fn lemma_resolve_append(a: Seq<Seq<char>>, b: Seq<Seq<char>>)
    requires
        forall|i: int| 0 <= i < b.len() ==> normal_comp(#[trigger] b[i]),
    ensures
        resolve_pieces(a + b) == resolve_pieces(a) + b,
    decreases b.len(),
{
    if b.len() == 0 {
        assert(a + b =~= a);
        assert(resolve_pieces(a) + b =~= resolve_pieces(a));
    } else {
        assert((a + b).drop_last() =~= a + b.drop_last());
        assert((a + b).last() == b.last());
        assert(b.last() == b[b.len() - 1]);
        lemma_resolve_append(a, b.drop_last());
        assert(resolve_pieces(a) + b =~= (resolve_pieces(a) + b.drop_last()).push(b.last()));
    }
}

/// An empty last piece changes nothing.
proof fn lemma_resolve_trailing_empty(a: Seq<Seq<char>>)
    ensures
        resolve_pieces(a.push(Seq::<char>::empty())) == resolve_pieces(a),
{
    assert(a.push(Seq::<char>::empty()).drop_last() =~= a);
}

/// Normalized components are normal.
proof fn lemma_resolve_normal(pieces: Seq<Seq<char>>)
    requires
        forall|i: int| 0 <= i < pieces.len() ==> !crate::text::has_char(#[trigger] pieces[i], '/'),
    ensures
        forall|i: int| 0 <= i < resolve_pieces(pieces).len() ==> normal_comp(
            #[trigger] resolve_pieces(pieces)[i],
        ),
    decreases pieces.len(),
{
    if pieces.len() > 0 {
        let d = pieces.drop_last();
        assert forall|i: int| 0 <= i < d.len() implies !crate::text::has_char(#[trigger] d[i], '/') by {
            assert(d[i] == pieces[i]);
        }
        lemma_resolve_normal(d);
        let r = resolve_pieces(d);
        assert(pieces.last() == pieces[pieces.len() - 1]);
        assert forall|i: int| 0 <= i < resolve_pieces(pieces).len() implies normal_comp(
            #[trigger] resolve_pieces(pieces)[i],
        ) by {
            if i < r.len() {
                assert(resolve_pieces(pieces)[i] == r[i]);
            }
        }
    }
}

/// The components of a path are normal.
proof fn lemma_norm_comps_normal(p: Seq<char>)
    ensures
        forall|i: int| 0 <= i < norm_comps(p).len() ==> normal_comp(#[trigger] norm_comps(p)[i]),
{
    crate::text::lemma_split_pieces(p, '/');
    lemma_resolve_normal(split_char(p, '/'));
}

/// The pieces of a mapping: its components, then the empty piece after the
/// final `/`.
proof fn lemma_split_mapping(rel: Seq<Seq<char>>)
    requires
        rel.len() > 0,
        forall|i: int| 0 <= i < rel.len() ==> normal_comp(#[trigger] rel[i]),
    ensures
        split_char(join(rel, seq!['/']) + seq!['/'], '/') == rel.push(Seq::<char>::empty()),
{
    assert forall|i: int| 0 <= i < rel.len() implies !crate::text::has_char(#[trigger] rel[i], '/') by {
        assert(normal_comp(rel[i]));
    }
    crate::text::lemma_split_join(rel, '/');
    let j = join(rel, seq!['/']);
    crate::text::lemma_split_append(j, Seq::<char>::empty(), '/');
    assert(j + seq!['/'] + Seq::<char>::empty() =~= j + seq!['/']);
    assert(split_char(Seq::<char>::empty(), '/') =~= seq![Seq::<char>::empty()]);
    assert(rel + seq![Seq::<char>::empty()] =~= rel.push(Seq::<char>::empty()));
}

/// The mapping `relative_mapping` stores leads back to the target: joined to
/// the parent repository it names the same directory as the target, once
/// both are normalized lexically.
pub proof fn law_mapping_round_trip(parent: Seq<char>, target: Seq<char>)
    requires
        mapping_for(parent, target) is Ok,
    ensures
        normalized(join_path(parent, mapping_for(parent, target)->Ok_0)) == normalized(target),
{
    let pa = path_is_abs(parent);
    let pc = norm_comps(parent);
    let ta = path_is_abs(target);
    let tc = norm_comps(target);
    let m = mapping_for(parent, target)->Ok_0;
    lemma_norm_comps_normal(target);
    let e = Seq::<char>::empty();
    if ta && !pa {
        // the parent is relative with no components: the mapping is absolute
        let rel = seq![seq!['/']] + tc;
        assert(rel_pieces(ta, tc, pa, pc) == rel);
        assert(m == join(rel, seq!['/']) + seq!['/']);
        if tc.len() == 0 {
            assert(rel =~= seq![seq!['/']]);
            assert(m =~= seq!['/', '/']);
            assert(m =~= e + seq!['/'] + (e + seq!['/'] + e));
            crate::text::lemma_split_append(e, e + seq!['/'] + e, '/');
            crate::text::lemma_split_append(e, e, '/');
            assert(split_char(e, '/') =~= seq![e]);
            assert(split_char(m, '/') =~= seq![e, e, e]);
            reveal_with_fuel(resolve_pieces, 4);
            assert(norm_comps(m) =~= tc);
        } else {
            assert(join(rel, seq!['/']) =~= seq!['/', '/'] + join(tc, seq!['/'])) by {
                lemma_join_prepend(seq!['/'], tc);
            }
            lemma_split_mapping(tc);
            let jt = join(tc, seq!['/']) + seq!['/'];
            assert(m =~= e + seq!['/'] + (e + seq!['/'] + jt));
            crate::text::lemma_split_append(e, e + seq!['/'] + jt, '/');
            crate::text::lemma_split_append(e, jt, '/');
            assert(split_char(e, '/') =~= seq![e]);
            assert(split_char(m, '/') =~= seq![e, e] + tc.push(e));
            lemma_resolve_append(seq![e, e], tc);
            reveal_with_fuel(resolve_pieces, 3);
            assert(resolve_pieces(seq![e, e]) =~= Seq::<Seq<char>>::empty());
            assert(seq![e, e] + tc.push(e) =~= (seq![e, e] + tc).push(e));
            lemma_resolve_trailing_empty(seq![e, e] + tc);
            assert(norm_comps(m) =~= tc);
        }
        assert(path_is_abs(m));
    } else {
        let rel = tc.skip(pc.len() as int);
        assert(rel_pieces(ta, tc, pa, pc) == rel);
        assert(rel.len() > 0);
        assert(m == join(rel, seq!['/']) + seq!['/']);
        assert forall|i: int| 0 <= i < rel.len() implies normal_comp(#[trigger] rel[i]) by {
            assert(rel[i] == tc[pc.len() + i]);
        }
        lemma_split_mapping(rel);
        assert(tc == pc + rel) by {
            assert(tc.take(pc.len() as int) == pc);
            assert(tc =~= tc.take(pc.len() as int) + tc.skip(pc.len() as int));
        }
        lemma_join_first(rel);
        assert(!path_is_abs(m));
        let base = if parent.len() > 0 && parent.last() == '/' {
            parent.drop_last()
        } else {
            parent
        };
        if parent.len() == 0 {
            assert(join_path(parent, m) == m);
            assert(pc =~= Seq::<Seq<char>>::empty()) by {
                assert(split_char(parent, '/') =~= seq![e]);
                reveal_with_fuel(resolve_pieces, 2);
            }
            lemma_resolve_append(Seq::<Seq<char>>::empty(), rel);
            assert(Seq::<Seq<char>>::empty() + rel =~= rel);
            lemma_resolve_trailing_empty(rel);
            assert(norm_comps(m) =~= tc);
        } else {
            assert(join_path(parent, m) =~= base + seq!['/'] + m);
            crate::text::lemma_split_append(base, m, '/');
            let sb = split_char(base, '/');
            assert(pc == resolve_pieces(sb)) by {
                if parent.last() == '/' {
                    assert(parent =~= base + seq!['/'] + e);
                    crate::text::lemma_split_append(base, e, '/');
                    assert(split_char(e, '/') =~= seq![e]);
                    assert(sb + seq![e] =~= sb.push(e));
                    lemma_resolve_trailing_empty(sb);
                }
            }
            lemma_resolve_append(sb, rel);
            assert(sb + rel.push(e) =~= (sb + rel).push(e));
            lemma_resolve_trailing_empty(sb + rel);
            assert(norm_comps(join_path(parent, m)) =~= tc);
            assert(join_path(parent, m)[0] == parent[0]);
        }
    }
}

/// Joining a first piece onto the rest.
proof fn lemma_join_prepend(x: Seq<char>, t: Seq<Seq<char>>)
    requires
        t.len() > 0,
    ensures
        join(seq![x] + t, seq!['/']) == x + seq!['/'] + join(t, seq!['/']),
    decreases t.len(),
{
    let st = seq![x] + t;
    if t.len() == 1 {
        assert(st.drop_last() =~= seq![x]);
        assert(join(st.drop_last(), seq!['/']) == x);
        assert(st.last() == t[0]);
        assert(join(t, seq!['/']) == t[0]);
    } else {
        assert(st.drop_last() =~= seq![x] + t.drop_last());
        lemma_join_prepend(x, t.drop_last());
        assert(st.last() == t.last());
        assert(join(st, seq!['/']) =~= x + seq!['/'] + join(t, seq!['/']));
    }
}

/// A join of normal components starts with the first one's first character.
proof fn lemma_join_first(parts: Seq<Seq<char>>)
    requires
        parts.len() > 0,
        forall|i: int| 0 <= i < parts.len() ==> normal_comp(#[trigger] parts[i]),
    ensures
        join(parts, seq!['/']).len() > 0,
        join(parts, seq!['/'])[0] == parts[0][0],
    decreases parts.len(),
{
    assert(normal_comp(parts[0]));
    if parts.len() > 1 {
        let d = parts.drop_last();
        assert forall|i: int| 0 <= i < d.len() implies normal_comp(#[trigger] d[i]) by {
            assert(d[i] == parts[i]);
        }
        lemma_join_first(d);
    }
}

/// Normalizing is idempotent, and what it leaves holds no empty, `.` or
/// `..` component.
pub proof fn law_normalize_idempotent(p: Seq<char>)
    ensures
        normalized(normalized(p)) == normalized(p),
        norm_comps(normalized(p)) == norm_comps(p),
        path_is_abs(normalized(p)) == path_is_abs(p),
        forall|i: int| 0 <= i < norm_comps(p).len() ==> normal_comp(#[trigger] norm_comps(p)[i]),
{
    let abs = path_is_abs(p);
    let comps = norm_comps(p);
    lemma_norm_comps_normal(p);
    let r = normalized(p);
    let e = Seq::<char>::empty();
    if comps.len() == 0 {
        assert(join(comps, seq!['/']) =~= e);
        if abs {
            assert(r =~= e + seq!['/'] + e);
            crate::text::lemma_split_append(e, e, '/');
            assert(split_char(e, '/') =~= seq![e]);
            reveal_with_fuel(resolve_pieces, 3);
            assert(norm_comps(r) =~= comps);
        } else {
            assert(r =~= e);
            assert(split_char(e, '/') =~= seq![e]);
            reveal_with_fuel(resolve_pieces, 2);
            assert(norm_comps(r) =~= comps);
        }
    } else {
        assert forall|i: int| 0 <= i < comps.len() implies !crate::text::has_char(
            #[trigger] comps[i],
            '/',
        ) by {
            assert(normal_comp(comps[i]));
        }
        crate::text::lemma_split_join(comps, '/');
        lemma_join_first(comps);
        let j = join(comps, seq!['/']);
        if abs {
            assert(r =~= e + seq!['/'] + j);
            crate::text::lemma_split_append(e, j, '/');
            assert(split_char(e, '/') =~= seq![e]);
            lemma_resolve_append(seq![e], comps);
            reveal_with_fuel(resolve_pieces, 2);
            assert(resolve_pieces(seq![e]) =~= Seq::<Seq<char>>::empty());
            assert(Seq::<Seq<char>>::empty() + comps =~= comps);
            assert(norm_comps(r) =~= comps);
        } else {
            assert(r =~= j);
            lemma_resolve_append(Seq::<Seq<char>>::empty(), comps);
            assert(Seq::<Seq<char>>::empty() + comps =~= comps);
            assert(norm_comps(r) =~= comps);
        }
    }
}

/// The mapping `relative_mapping` stores leads back to the target from the
/// normalized parent repository too: joined to it, it names the same
/// directory as the target once both are normalized lexically.
pub proof fn law_mapping_round_trip_normalized(parent: Seq<char>, target: Seq<char>)
    requires
        mapping_for(parent, target) is Ok,
    ensures
        normalized(join_path(normalized(parent), mapping_for(parent, target)->Ok_0)) == normalized(
            target,
        ),
{
    law_normalize_idempotent(parent);
    assert(mapping_for(normalized(parent), target) == mapping_for(parent, target));
    law_mapping_round_trip(normalized(parent), target);
}

/// The pieces that name a component: all but the empty ones and `.`.
pub open spec fn named_pieces(pieces: Seq<Seq<char>>) -> Seq<Seq<char>>
    decreases pieces.len(),
{
    if pieces.len() == 0 {
        pieces
    } else {
        let r = named_pieces(pieces.drop_last());
        let x = pieces.last();
        if x.len() == 0 || x == seq!['.'] {
            r
        } else {
            r.push(x)
        }
    }
}

/// Without `..`, resolving keeps every piece but the empty ones and `.`.
proof fn lemma_resolve_without_parent(pieces: Seq<Seq<char>>)
    requires
        forall|i: int| 0 <= i < pieces.len() ==> #[trigger] pieces[i] != dot_dot(),
    ensures
        resolve_pieces(pieces) == named_pieces(pieces),
    decreases pieces.len(),
{
    if pieces.len() > 0 {
        let d = pieces.drop_last();
        assert forall|i: int| 0 <= i < d.len() implies #[trigger] d[i] != dot_dot() by {
            assert(d[i] == pieces[i]);
        }
        lemma_resolve_without_parent(d);
        assert(pieces.last() == pieces[pieces.len() - 1]);
    }
}

/// A path without a `..` component keeps, once normalized, its root and its
/// components in order, with only the empty ones and `.` dropped.
pub proof fn law_normalize_keeps_components(p: Seq<char>)
    requires
        forall|i: int|
            0 <= i < split_char(p, '/').len() ==> #[trigger] split_char(p, '/')[i] != dot_dot(),
    ensures
        norm_comps(p) == named_pieces(split_char(p, '/')),
        normalized(p) == render(path_is_abs(p), named_pieces(split_char(p, '/'))),
{
    lemma_resolve_without_parent(split_char(p, '/'));
}

/// The shape of the mapping `relative_mapping` stores, for an absolute
/// parent repository: it succeeds exactly when the target lies strictly
/// inside the parent (component-wise, after lexical normalization), and the
/// mapping is relative, made of normal components only, and ends in `/`.
pub proof fn law_mapping_shape(parent: Seq<char>, target: Seq<char>)
    requires
        path_is_abs(parent),
    ensures
        mapping_for(parent, target) is Ok <==> path_prefix(
            path_is_abs(target),
            norm_comps(target),
            true,
            norm_comps(parent),
        ) && norm_comps(target).len() > norm_comps(parent).len(),
        mapping_for(parent, target) is Ok ==> ({
            let m = mapping_for(parent, target)->Ok_0;
            let rel = norm_comps(target).skip(norm_comps(parent).len() as int);
            &&& m.len() > 0 && m.last() == '/'
            &&& !path_is_abs(m)
            &&& split_char(m, '/') == rel.push(Seq::<char>::empty())
            &&& forall|i: int| 0 <= i < rel.len() ==> normal_comp(#[trigger] rel[i])
        }),
{
    let tc = norm_comps(target);
    let pc = norm_comps(parent);
    lemma_norm_comps_normal(target);
    if mapping_for(parent, target) is Ok {
        let rel = tc.skip(pc.len() as int);
        let m = mapping_for(parent, target)->Ok_0;
        assert(m == join(rel, seq!['/']) + seq!['/']);
        assert forall|i: int| 0 <= i < rel.len() implies normal_comp(#[trigger] rel[i]) by {
            assert(rel[i] == tc[pc.len() + i]);
        }
        lemma_split_mapping(rel);
        lemma_join_first(rel);
    }
}

} // verus!
