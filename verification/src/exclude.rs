//! The managed block of a repository's exclude file: the entry written for a
//! mapping, and the edits that add entries to the block or drop one from it
//! while leaving every line outside it as it was.

use vstd::prelude::*;

use crate::text::{
    lemma_lines_append, lemma_lines_one, lemma_lines_trim_end, lemma_terminated_concat,
    lemma_join_terminated, lemma_lines_no_newlines, lemma_lines_terminated, lemma_trim_strip_cr,
    no_newlines, strip_crs,
    has_char, is_ws, strip_cr,
    terminated_lines,
    chars_of, copy_range, eq_chars, join, join_with, lemma_views_push, lines, lines_of, one_char,
    push_all, push_str, string_of, trim, trim_char, trim_end, trim_end_ws, trim_ws, views,
};

verus! {

/// First line of the managed block.
pub const EXCLUDE_SECTION_START: &'static str = "# >>> git-sidecar (managed) >>>";

/// Last line of the managed block.
pub const EXCLUDE_SECTION_END: &'static str = "# <<< git-sidecar (managed) <<<";

// ---------------------------------------------------------------------------
// Specifications
// ---------------------------------------------------------------------------

/// The text of the block's first line.
pub open spec fn section_start() -> Seq<char> {
    EXCLUDE_SECTION_START@
}

/// The text of the block's last line.
pub open spec fn section_end() -> Seq<char> {
    EXCLUDE_SECTION_END@
}

/// The views of a sequence of strings.
pub open spec fn str_views(v: Seq<String>) -> Seq<Seq<char>> {
    Seq::new(v.len(), |i: int| v[i]@)
}

/// The exclude pattern for a mapping: `/`, the mapping without leading or
/// trailing slashes, `/`.
pub open spec fn entry_for(mapping: Seq<char>) -> Seq<char> {
    seq!['/'] + crate::text::trim_ch(mapping, '/') + seq!['/']
}

/// Index of the first line at or after `from` whose trimmed text is `t`, or
/// `ls.len()`.
pub open spec fn find_line(ls: Seq<Seq<char>>, t: Seq<char>, from: int) -> int
    decreases ls.len() - from,
{
    if from >= ls.len() {
        ls.len() as int
    } else if trim(ls[from]) == t {
        from
    } else {
        find_line(ls, t, from + 1)
    }
}

/// The indices of the block's start and end marker lines: the first start
/// marker, then the first end marker after it.
pub open spec fn section_of(ls: Seq<Seq<char>>) -> (Option<int>, Option<int>) {
    let s = find_line(ls, section_start(), 0);
    if s < ls.len() {
        let e = find_line(ls, section_end(), s + 1);
        (Some(s), if e < ls.len() {
            Some(e)
        } else {
            None
        })
    } else {
        (None, None)
    }
}

/// Some line of `ls[lo..hi]` trims to `e`.
pub open spec fn has_line(ls: Seq<Seq<char>>, lo: int, hi: int, e: Seq<char>) -> bool {
    exists|i: int| lo <= i < hi && trim(#[trigger] ls[i]) == e
}

/// The entries (in order, repeats kept) that no line of `ls[lo..hi]` trims
/// to.
pub open spec fn missing_entries(es: Seq<Seq<char>>, ls: Seq<Seq<char>>, lo: int, hi: int) -> Seq<
    Seq<char>,
>
    decreases es.len(),
{
    if es.len() == 0 {
        es
    } else {
        let r = missing_entries(es.drop_last(), ls, lo, hi);
        if has_line(ls, lo, hi, es.last()) {
            r
        } else {
            r.push(es.last())
        }
    }
}

/// The lines of `ls[lo..hi]` that do not trim to `e`, in order.
pub open spec fn kept_lines(ls: Seq<Seq<char>>, lo: int, hi: int, e: Seq<char>) -> Seq<Seq<char>>
    decreases hi - lo,
{
    if hi <= lo {
        Seq::<Seq<char>>::empty()
    } else {
        let r = kept_lines(ls, lo, hi - 1, e);
        if trim(ls[hi - 1]) == e {
            r
        } else {
            r.push(ls[hi - 1])
        }
    }
}

/// Lines joined by line feeds, with a final line feed.
pub open spec fn unlines(ls: Seq<Seq<char>>) -> Seq<char> {
    join(ls, seq!['\n']) + seq!['\n']
}

/// What `with_excluded_entries` returns: the content with the missing
/// entries added at the end of the block (or a new block appended), and
/// whether that changed it.
pub open spec fn with_entries(c: Seq<char>, es: Seq<Seq<char>>) -> (Seq<char>, bool) {
    if es.len() == 0 {
        (c, false)
    } else {
        let ls = lines(c);
        match section_of(ls) {
            (Some(s), Some(e)) => {
                let missing = missing_entries(es, ls, s + 1, e);
                if missing.len() == 0 {
                    (c, false)
                } else {
                    (unlines(ls.take(e) + missing + ls.skip(e)), true)
                }
            },
            _ => {
                let t = trim_end(c);
                let prefix = if t.len() > 0 {
                    t + seq!['\n', '\n']
                } else {
                    t
                };
                (
                    prefix + section_start() + seq!['\n'] + terminated_lines(es) + section_end() + seq![
                        '\n',
                    ],
                    true,
                )
            },
        }
    }
}

/// What `without_excluded_entry` returns: the content with the block's lines
/// that trim to `entry` removed, and whether that changed it.
pub open spec fn without_entry(c: Seq<char>, entry: Seq<char>) -> (Seq<char>, bool) {
    let ls = lines(c);
    match section_of(ls) {
        (Some(s), Some(e)) => {
            let kept = kept_lines(ls, s + 1, e, entry);
            if kept.len() == e - s - 1 {
                (c, false)
            } else {
                (unlines(ls.take(s + 1) + kept + ls.skip(e)), true)
            }
        },
        _ => (c, false),
    }
}

// ---------------------------------------------------------------------------
// Implementation
// ---------------------------------------------------------------------------

/// The exclude pattern for a mapping: root-anchored and directory-only.
pub fn exclude_entry(mapping: &str) -> (res: String)
    ensures
        res@ == entry_for(mapping@),
{
    let m = chars_of(mapping);
    let inner = trim_char(m.as_slice(), '/');
    let mut out = one_char('/');
    push_all(&mut out, inner.as_slice());
    out.push('/');
    assert(out@ =~= entry_for(mapping@));
    string_of(out.as_slice())
}

/// Index of the first line at or after `from` that trims to `t`.
fn find_line_exec(ls: &[Vec<char>], t: &[char], from: usize) -> (r: usize)
    requires
        from <= ls@.len(),
    ensures
        r == find_line(views(ls@), t@, from as int),
{
    let mut i = from;
    while i < ls.len()
        invariant
            from <= i <= ls@.len(),
            find_line(views(ls@), t@, from as int) == find_line(views(ls@), t@, i as int),
        decreases ls@.len() - i,
    {
        let tl = trim_ws(ls[i].as_slice());
        if eq_chars(tl.as_slice(), t) {
            return i;
        }
        i += 1;
    }
    i
}

/// Line indices of the managed section's start and end markers.
fn managed_section(ls: &[Vec<char>]) -> (res: (Option<usize>, Option<usize>))
    ensures
        section_of(views(ls@)) == (match res.0 {
            Some(s) => Some(s as int),
            None => None,
        }, match res.1 {
            Some(e) => Some(e as int),
            None => None,
        }),
        res.0 is Some ==> res.0->0 < ls@.len(),
        res.1 is Some ==> res.0 is Some && res.0->0 < res.1->0 < ls@.len(),
{
    let sv = chars_of(EXCLUDE_SECTION_START);
    let ev = chars_of(EXCLUDE_SECTION_END);
    let s = find_line_exec(ls, sv.as_slice(), 0);
    if s >= ls.len() {
        return (None, None);
    }
    proof {
        lemma_find_line(views(ls@), ev@, s + 1);
    }
    let e = find_line_exec(ls, ev.as_slice(), s + 1);
    if e < ls.len() {
        (Some(s), Some(e))
    } else {
        (Some(s), None)
    }
}

/// What `find_line` returns: the first match at or after `from`.
pub proof fn lemma_find_line(ls: Seq<Seq<char>>, t: Seq<char>, from: int)
    requires
        0 <= from <= ls.len(),
    ensures
        from <= find_line(ls, t, from) <= ls.len(),
        find_line(ls, t, from) < ls.len() ==> trim(ls[find_line(ls, t, from)]) == t,
        forall|k: int| from <= k < find_line(ls, t, from) ==> trim(ls[k]) != t,
    decreases ls.len() - from,
{
    if from < ls.len() && trim(ls[from]) != t {
        lemma_find_line(ls, t, from + 1);
    }
}

/// Whether some line of `ls[lo..hi]` trims to `e`.
fn has_line_exec(ls: &[Vec<char>], lo: usize, hi: usize, e: &[char]) -> (res: bool)
    requires
        lo <= hi <= ls@.len(),
    ensures
        res == has_line(views(ls@), lo as int, hi as int, e@),
{
    let mut i = lo;
    while i < hi
        invariant
            lo <= i <= hi <= ls@.len(),
            forall|k: int| lo <= k < i ==> trim(#[trigger] views(ls@)[k]) != e@,
        decreases hi - i,
    {
        let tl = trim_ws(ls[i].as_slice());
        if eq_chars(tl.as_slice(), e) {
            assert(trim(views(ls@)[i as int]) == e@);
            return true;
        }
        i += 1;
    }
    false
}

/// A copy of the lines `ls[lo..hi]`.
fn copy_lines(ls: &[Vec<char>], lo: usize, hi: usize, out: &mut Vec<Vec<char>>)
    requires
        lo <= hi <= ls@.len(),
    ensures
        views(final(out)@) == views(old(out)@) + views(ls@).subrange(lo as int, hi as int),
{
    let mut i = lo;
    while i < hi
        invariant
            lo <= i <= hi <= ls@.len(),
            views(out@) == views(old(out)@) + views(ls@).subrange(lo as int, i as int),
        decreases hi - i,
    {
        let c = copy_range(ls[i].as_slice(), 0, ls[i].len());
        assert(c@ =~= views(ls@)[i as int]);
        let ghost before = out@;
        out.push(c);
        proof {
            lemma_views_push(before, c);
        }
        assert(views(out@) =~= views(old(out)@) + views(ls@).subrange(lo as int, i + 1));
        i += 1;
    }
}

/// Lines joined by line feeds, with a final line feed.
fn unlines_exec(ls: &[Vec<char>]) -> (res: Vec<char>)
    ensures
        res@ == unlines(views(ls@)),
{
    let nl = one_char('\n');
    let mut out = join_with(ls, nl.as_slice());
    let ghost j = out@;
    out.push('\n');
    assert(out@ =~= j + seq!['\n']);
    out
}

/// Adds any missing entries to the git-sidecar managed section of an
/// exclude file's content, creating the section if needed. Lines outside
/// the section are never touched. Returns the new content and whether it
/// differs from the input.
pub fn with_excluded_entries(content: &str, entries: &[String]) -> (res: (String, bool))
    ensures
        (res.0@, res.1) == with_entries(content@, str_views(entries@)),
{
    let ghost es = str_views(entries@);
    if entries.len() == 0 {
        return (owned_copy(content), false);
    }
    let cv = chars_of(content);
    let ls = lines_of(cv.as_slice());
    let (start, end) = managed_section(ls.as_slice());
    if let (Some(s), Some(e)) = (start, end) {
        // entries that the block does not hold yet, in order
        let mut missing: Vec<Vec<char>> = Vec::new();
        let mut i: usize = 0;
        assert(es.take(0) =~= Seq::<Seq<char>>::empty());
        while i < entries.len()
            invariant
                i <= entries@.len(),
                es == str_views(entries@),
                s < e < ls@.len(),
                views(missing@) == missing_entries(es.take(i as int), views(ls@), s + 1, e as int),
            decreases entries@.len() - i,
        {
            assert(es.take(i + 1).drop_last() =~= es.take(i as int));
            let ev = chars_of(entries[i].as_str());
            if !has_line_exec(ls.as_slice(), s + 1, e, ev.as_slice()) {
                let ghost before = missing@;
                missing.push(ev);
                proof {
                    lemma_views_push(before, ev);
                }
            }
            i += 1;
        }
        assert(es.take(i as int) =~= es);
        if missing.len() == 0 {
            return (owned_copy(content), false);
        }
        let mut out_lines: Vec<Vec<char>> = Vec::new();
        copy_lines(ls.as_slice(), 0, e, &mut out_lines);
        copy_lines(missing.as_slice(), 0, missing.len(), &mut out_lines);
        copy_lines(ls.as_slice(), e, ls.len(), &mut out_lines);
        assert(views(out_lines@) =~= views(ls@).take(e as int) + views(missing@) + views(
            ls@,
        ).skip(e as int));
        let out = unlines_exec(out_lines.as_slice());
        return (string_of(out.as_slice()), true);
    }
    // No complete managed section yet: append a fresh one.

    let mut out = trim_end_ws(cv.as_slice());
    if out.len() > 0 {
        out.push('\n');
        out.push('\n');
    }
    let ghost prefix = out@;
    push_str(&mut out, EXCLUDE_SECTION_START);
    out.push('\n');
    let ghost head = out@;
    let mut i: usize = 0;
    while i < entries.len()
        invariant
            i <= entries@.len(),
            es == str_views(entries@),
            out@ == head + terminated_lines(es.take(i as int)),
        decreases entries@.len() - i,
    {
        assert(es.take(i + 1).drop_last() =~= es.take(i as int));
        let ghost before = out@;
        push_str(&mut out, entries[i].as_str());
        out.push('\n');
        assert(out@ =~= head + terminated_lines(es.take(i + 1)));
        i += 1;
    }
    assert(es.take(i as int) =~= es);
    push_str(&mut out, EXCLUDE_SECTION_END);
    out.push('\n');
    assert(prefix =~= (if trim_end(content@).len() > 0 {
        trim_end(content@) + seq!['\n', '\n']
    } else {
        trim_end(content@)
    }));
    assert(out@ =~= prefix + section_start() + seq!['\n'] + terminated_lines(es) + section_end()
        + seq!['\n']);
    (string_of(out.as_slice()), true)
}

/// A fresh `String` equal to `s`.
fn owned_copy(s: &str) -> (res: String)
    ensures
        res@ == s@,
{
    let v = chars_of(s);
    string_of(v.as_slice())
}

/// Removes an entry from the git-sidecar managed section of an exclude
/// file's content. Lines outside the section are never touched.
pub fn without_excluded_entry(content: &str, entry: &str) -> (res: (String, bool))
    ensures
        (res.0@, res.1) == without_entry(content@, entry@),
{
    let cv = chars_of(content);
    let ev = chars_of(entry);
    let ls = lines_of(cv.as_slice());
    let (start, end) = managed_section(ls.as_slice());
    let (s, e) = match (start, end) {
        (Some(s), Some(e)) => (s, e),
        _ => return (owned_copy(content), false),
    };
    let mut kept: Vec<Vec<char>> = Vec::new();
    let mut i: usize = s + 1;
    while i < e
        invariant
            s < e < ls@.len(),
            s + 1 <= i <= e,
            views(kept@) == kept_lines(views(ls@), s + 1, i as int, ev@),
        decreases e - i,
    {
        let tl = trim_ws(ls[i].as_slice());
        if !eq_chars(tl.as_slice(), ev.as_slice()) {
            let c = copy_range(ls[i].as_slice(), 0, ls[i].len());
            assert(c@ =~= views(ls@)[i as int]);
            let ghost before = kept@;
            kept.push(c);
            proof {
                lemma_views_push(before, c);
            }
        }
        i += 1;
    }
    if kept.len() == e - s - 1 {
        return (owned_copy(content), false);
    }
    let mut out_lines: Vec<Vec<char>> = Vec::new();
    copy_lines(ls.as_slice(), 0, s + 1, &mut out_lines);
    copy_lines(kept.as_slice(), 0, kept.len(), &mut out_lines);
    copy_lines(ls.as_slice(), e, ls.len(), &mut out_lines);
    assert(views(out_lines@) =~= views(ls@).take(s + 1) + views(kept@) + views(ls@).skip(
        e as int,
    ));
    let out = unlines_exec(out_lines.as_slice());
    (string_of(out.as_slice()), true)
}

// ---------------------------------------------------------------------------
// Laws
// ---------------------------------------------------------------------------

/// Entries that can stand on a line of their own in the block: no line
/// feed, no surrounding whitespace, and not the block's end marker.
pub open spec fn clean_entries(es: Seq<Seq<char>>) -> bool {
    forall|i: int|
        0 <= i < es.len() ==> !has_char(#[trigger] es[i], '\n') && trim(es[i]) == es[i] && es[i]
            != section_end()
}

/// What the markers are made of.
proof fn lemma_markers()
    ensures
        section_start().len() > 0,
        section_end().len() > 0,
        section_start() != section_end(),
        trim(section_start()) == section_start(),
        trim(section_end()) == section_end(),
        strip_cr(section_start()) == section_start(),
        strip_cr(section_end()) == section_end(),
        !has_char(section_start(), '\n'),
        !has_char(section_end(), '\n'),
{
    reveal_strlit("# >>> git-sidecar (managed) >>>");
    reveal_strlit("# <<< git-sidecar (managed) <<<");
    let a = section_start();
    let b = section_end();
    assert(a.len() == 31);
    assert(a[2] != b[2]);
    assert(!is_ws(a.last()) && !is_ws(a[0]));
    assert(!is_ws(b.last()) && !is_ws(b[0]));
    assert(!has_char(a, '\n')) by {
        assert forall|i: int| 0 <= i < a.len() implies a[i] != '\n' by {
            assert(0 <= i < 31);
        }
    }
    assert(!has_char(b, '\n')) by {
        assert forall|i: int| 0 <= i < b.len() implies b[i] != '\n' by {
            assert(0 <= i < 31);
        }
    }
}

/// `x` is one of the entries.
pub open spec fn one_of(es: Seq<Seq<char>>, x: Seq<char>) -> bool {
    exists|i: int| 0 <= i < es.len() && es[i] == x
}

/// `find_line` finds the first line that trims to `t`.
proof fn lemma_find_line_is(ls: Seq<Seq<char>>, t: Seq<char>, from: int, j: int)
    requires
        0 <= from <= j <= ls.len(),
        forall|k: int| from <= k < j ==> trim(#[trigger] ls[k]) != t,
        j < ls.len() ==> trim(ls[j]) == t,
    ensures
        find_line(ls, t, from) == j,
    decreases j - from,
{
    if from < j {
        lemma_find_line_is(ls, t, from + 1, j);
    }
}

/// Every entry is either on a line of the block or among the missing ones,
/// and the missing ones are entries.
proof fn lemma_missing_entries(es: Seq<Seq<char>>, ls: Seq<Seq<char>>, lo: int, hi: int)
    ensures
        forall|i: int|
            0 <= i < es.len() ==> has_line(ls, lo, hi, #[trigger] es[i]) || one_of(
                missing_entries(es, ls, lo, hi),
                es[i],
            ),
        forall|j: int|
            0 <= j < missing_entries(es, ls, lo, hi).len() ==> one_of(
                es,
                #[trigger] missing_entries(es, ls, lo, hi)[j],
            ),
        (forall|i: int| 0 <= i < es.len() ==> has_line(ls, lo, hi, #[trigger] es[i]))
            ==> missing_entries(es, ls, lo, hi).len() == 0,
    decreases es.len(),
{
    if es.len() > 0 {
        let d = es.drop_last();
        lemma_missing_entries(d, ls, lo, hi);
        let r = missing_entries(d, ls, lo, hi);
        let m = missing_entries(es, ls, lo, hi);
        assert(es.last() == es[es.len() - 1]);
        assert forall|i: int| 0 <= i < es.len() implies has_line(ls, lo, hi, #[trigger] es[i])
            || one_of(m, es[i]) by {
            if i < es.len() - 1 {
                assert(es[i] == d[i]);
                if !has_line(ls, lo, hi, es[i]) {
                    let j = choose|j: int| 0 <= j < r.len() && r[j] == d[i];
                    assert(m[j] == r[j]);
                }
            } else if !has_line(ls, lo, hi, es[i]) {
                assert(m[r.len() as int] == es[i]);
            }
        }
        assert forall|j: int| 0 <= j < m.len() implies one_of(es, #[trigger] m[j]) by {
            if j < r.len() {
                assert(m[j] == r[j]);
                let i = choose|i: int| 0 <= i < d.len() && d[i] == r[j];
                assert(es[i] == d[i]);
            } else {
                assert(m[j] == es[es.len() - 1]);
            }
        }
        if forall|i: int| 0 <= i < es.len() ==> has_line(ls, lo, hi, #[trigger] es[i]) {
            assert forall|i: int| 0 <= i < d.len() implies has_line(ls, lo, hi, #[trigger] d[i]) by {
                assert(d[i] == es[i]);
            }
        }
    }
}

/// The lines of an edited block, once written out and read back: each line
/// with a final carriage return dropped, so each trims as before.
pub proof fn lemma_lines_unlines(ls: Seq<Seq<char>>)
    requires
        ls.len() > 0,
        no_newlines(ls),
    ensures
        lines(unlines(ls)) == strip_crs(ls),
        lines(unlines(ls)).len() == ls.len(),
        forall|i: int| 0 <= i < ls.len() ==> trim(#[trigger] lines(unlines(ls))[i]) == trim(ls[i]),
{
    lemma_join_terminated(ls);
    lemma_lines_terminated(ls);
    assert forall|i: int| 0 <= i < ls.len() implies trim(#[trigger] lines(unlines(ls))[i]) == trim(
        ls[i],
    ) by {
        lemma_trim_strip_cr(ls[i]);
    }
}

/// The block holds every entry.
pub open spec fn block_holds(ls: Seq<Seq<char>>, es: Seq<Seq<char>>) -> bool {
    match section_of(ls) {
        (Some(s), Some(e)) => forall|i: int| 0 <= i < es.len() ==> has_line(ls, s + 1, e, #[trigger] es[i]),
        _ => false,
    }
}

/// Adding to an existing block: the block keeps its start, ends after the
/// added entries, and holds every entry.
proof fn lemma_add_to_block(c: Seq<char>, es: Seq<Seq<char>>)
    requires
        es.len() > 0,
        clean_entries(es),
        section_of(lines(c)).0 is Some,
        section_of(lines(c)).1 is Some,
    ensures
        block_holds(lines(with_entries(c, es).0), es),
{
    let ls = lines(c);
    let s = section_of(ls).0->0;
    let e = section_of(ls).1->0;
    lemma_find_line(ls, section_start(), 0);
    lemma_find_line(ls, section_end(), s + 1);
    let missing = missing_entries(es, ls, s + 1, e);
    lemma_missing_entries(es, ls, s + 1, e);
    if missing.len() == 0 {
        assert(with_entries(c, es).0 == c);
        assert forall|i: int| 0 <= i < es.len() implies has_line(ls, s + 1, e, #[trigger] es[i]) by {
            if !has_line(ls, s + 1, e, es[i]) {
                let j = choose|j: int| 0 <= j < missing.len() && missing[j] == es[i];
            }
        }
    } else {
        let l2 = ls.take(e) + missing + ls.skip(e);
        let m = missing.len() as int;
        lemma_lines_no_newlines(c);
        assert forall|j: int| 0 <= j < m implies !has_char(#[trigger] missing[j], '\n') && trim(
            missing[j],
        ) == missing[j] && missing[j] != section_end() by {
            let i = choose|i: int| 0 <= i < es.len() && es[i] == missing[j];
        }
        assert(no_newlines(l2)) by {
            assert forall|k: int| 0 <= k < l2.len() implies !has_char(#[trigger] l2[k], '\n') by {
                if k < e {
                    assert(l2[k] == ls[k]);
                } else if k < e + m {
                    assert(l2[k] == missing[k - e]);
                } else {
                    assert(l2[k] == ls[k - m]);
                }
            }
        }
        lemma_lines_unlines(l2);
        let n2 = lines(unlines(l2));
        assert(with_entries(c, es).0 == unlines(l2));
        lemma_markers();
        assert(find_line(n2, section_start(), 0) == s) by {
            assert forall|k: int| 0 <= k < s implies trim(#[trigger] n2[k]) != section_start() by {
                assert(l2[k] == ls[k]);
            }
            assert(l2[s] == ls[s]);
            lemma_find_line_is(n2, section_start(), 0, s);
        }
        assert(find_line(n2, section_end(), s + 1) == e + m) by {
            assert forall|k: int| s + 1 <= k < e + m implies trim(#[trigger] n2[k])
                != section_end() by {
                if k < e {
                    assert(l2[k] == ls[k]);
                } else {
                    assert(l2[k] == missing[k - e]);
                }
            }
            assert(l2[e + m] == ls[e]);
            lemma_find_line_is(n2, section_end(), s + 1, e + m);
        }
        assert(section_of(n2) == (Some(s), Some(e + m)));
        assert forall|i: int| 0 <= i < es.len() implies has_line(n2, s + 1, e + m, #[trigger] es[i]) by {
            if has_line(ls, s + 1, e, es[i]) {
                let k = choose|k: int| s + 1 <= k < e && trim(#[trigger] ls[k]) == es[i];
                assert(l2[k] == ls[k]);
                assert(trim(n2[k]) == es[i]);
            } else {
                let j = choose|j: int| 0 <= j < missing.len() && missing[j] == es[i];
                assert(l2[e + j] == missing[j]);
                assert(trim(n2[e + j]) == es[i]);
            }
        }
    }
}

/// Appending a fresh block: the block that is read back starts at the old
/// unterminated start marker, if any, else at the new one, ends at the new
/// end marker, and holds every entry.
proof fn lemma_add_new_block(c: Seq<char>, es: Seq<Seq<char>>)
    requires
        es.len() > 0,
        clean_entries(es),
        !(section_of(lines(c)).0 is Some && section_of(lines(c)).1 is Some),
    ensures
        block_holds(lines(with_entries(c, es).0), es),
{
    let ls = lines(c);
    let t = trim_end(c);
    let sv = section_start();
    let ev = section_end();
    lemma_markers();
    let kl = seq![sv] + es + seq![ev];
    let nes = es.len() as int;
    assert(no_newlines(kl)) by {
        assert forall|k: int| 0 <= k < kl.len() implies !has_char(#[trigger] kl[k], '\n') by {
            if 1 <= k <= nes {
                assert(kl[k] == es[k - 1]);
            }
        }
    }
    lemma_terminated_concat(seq![sv] + es, seq![ev]);
    lemma_terminated_concat(seq![sv], es);
    assert(terminated_lines(seq![sv]) =~= sv + seq!['\n']) by {
        assert(seq![sv].drop_last() =~= Seq::<Seq<char>>::empty());
        assert(terminated_lines(seq![sv].drop_last()) =~= Seq::<char>::empty());
        assert(seq![sv].last() == sv);
    }
    assert(terminated_lines(seq![ev]) =~= ev + seq!['\n']) by {
        assert(seq![ev].drop_last() =~= Seq::<Seq<char>>::empty());
        assert(terminated_lines(seq![ev].drop_last()) =~= Seq::<char>::empty());
        assert(seq![ev].last() == ev);
    }
    let mm = terminated_lines(kl);
    assert(mm =~= sv + seq!['\n'] + terminated_lines(es) + ev + seq!['\n']);
    lemma_lines_terminated(kl);
    let lm = lines(mm);
    assert(lm.len() == nes + 2);
    assert(trim(lm[0]) == sv) by {
        lemma_trim_strip_cr(kl[0]);
    }
    assert(trim(lm[nes + 1]) == ev) by {
        lemma_trim_strip_cr(kl[nes + 1]);
    }
    assert forall|i: int| 0 <= i < nes implies trim(#[trigger] lm[i + 1]) == es[i] by {
        assert(kl[i + 1] == es[i]);
        lemma_trim_strip_cr(kl[i + 1]);
    }
    let r = with_entries(c, es).0;
    if t.len() == 0 {
        assert(r =~= mm);
        assert(find_line(lm, sv, 0) == 0) by {
            lemma_find_line_is(lm, sv, 0, 0);
        }
        assert(find_line(lm, ev, 1) == nes + 1) by {
            assert forall|k: int| 1 <= k < nes + 1 implies trim(#[trigger] lm[k]) != ev by {
                assert(trim(lm[(k - 1) + 1]) == es[k - 1]);
            }
            lemma_find_line_is(lm, ev, 1, nes + 1);
        }
        assert forall|i: int| 0 <= i < nes implies has_line(lm, 1, nes + 1, #[trigger] es[i]) by {
            assert(trim(lm[i + 1]) == es[i]);
        }
    } else {
        let p1 = t + seq!['\n'];
        let pp = p1 + seq!['\n'];
        assert(r =~= pp + mm);
        lemma_lines_append(pp, mm);
        lemma_lines_append(p1, seq!['\n']);
        lemma_lines_one(Seq::<char>::empty());
        assert(Seq::<char>::empty() + seq!['\n'] =~= seq!['\n']);
        let a = lines(p1);
        let n = a.len() as int;
        let e0 = Seq::<char>::empty();
        assert(strip_cr(e0) =~= e0);
        let ls2 = lines(r);
        assert(ls2 =~= a + seq![e0] + lm);
        lemma_lines_trim_end(c);
        assert(trim(e0) =~= e0) by {
            assert(trim_end(e0) =~= e0);
        }
        assert(trim(ls2[n]) != sv && trim(ls2[n]) != ev) by {
            assert(ls2[n] == e0);
        }
        assert(trim(ls2[n + 1]) == sv) by {
            assert(ls2[n + 1] == lm[0]);
        }
        assert forall|i: int| 0 <= i < nes implies trim(#[trigger] ls2[n + 2 + i]) == es[i] by {
            assert(ls2[n + 2 + i] == lm[i + 1]);
        }
        assert(trim(ls2[n + 2 + nes]) == ev) by {
            assert(ls2[n + 2 + nes] == lm[nes + 1]);
        }
        lemma_find_line(ls, sv, 0);
        let s0 = find_line(ls, sv, 0);
        // where the block that is read back starts
        let s2 = if s0 < ls.len() {
            s0
        } else {
            n + 1
        };
        if s0 < ls.len() {
            assert(s0 < n) by {
                if s0 >= n {
                    assert(trim(ls[s0]) == Seq::<char>::empty());
                }
            }
            lemma_find_line(ls, ev, s0 + 1);
            assert(find_line(ls, ev, s0 + 1) == ls.len());
            assert(find_line(ls2, sv, 0) == s0) by {
                assert forall|k: int| 0 <= k < s0 implies trim(#[trigger] ls2[k]) != sv by {
                    assert(ls2[k] == a[k]);
                }
                assert(ls2[s0] == a[s0]);
                lemma_find_line_is(ls2, sv, 0, s0);
            }
        } else {
            assert(find_line(ls2, sv, 0) == n + 1) by {
                assert forall|k: int| 0 <= k < n + 1 implies trim(#[trigger] ls2[k]) != sv by {
                    if k < n {
                        assert(ls2[k] == a[k]);
                    }
                }
                lemma_find_line_is(ls2, sv, 0, n + 1);
            }
        }
        assert(find_line(ls2, ev, s2 + 1) == n + 2 + nes) by {
            assert forall|k: int| s2 + 1 <= k < n + 2 + nes implies trim(#[trigger] ls2[k]) != ev by {
                if k < n {
                    assert(ls2[k] == a[k]);
                } else if k >= n + 2 {
                    assert(trim(ls2[n + 2 + (k - n - 2)]) == es[k - n - 2]);
                }
            }
            lemma_find_line_is(ls2, ev, s2 + 1, n + 2 + nes);
        }
        assert(section_of(ls2) == (Some(s2), Some(n + 2 + nes)));
        assert forall|i: int| 0 <= i < nes implies has_line(ls2, s2 + 1, n + 2 + nes, #[trigger] es[i]) by {
            assert(trim(ls2[n + 2 + i]) == es[i]);
        }
    }
}

/// `y` is one of the lines `ls[lo..hi]`.
pub open spec fn line_in(ls: Seq<Seq<char>>, lo: int, hi: int, y: Seq<char>) -> bool {
    exists|k: int| lo <= k < hi && ls[k] == y
}

/// The kept lines are lines of the range that do not trim to `x`; all of
/// them are kept exactly when none trims to `x`.
proof fn lemma_kept_lines(ls: Seq<Seq<char>>, lo: int, hi: int, x: Seq<char>)
    requires
        0 <= lo <= hi <= ls.len(),
    ensures
        kept_lines(ls, lo, hi, x).len() <= hi - lo,
        forall|j: int|
            0 <= j < kept_lines(ls, lo, hi, x).len() ==> line_in(
                ls,
                lo,
                hi,
                #[trigger] kept_lines(ls, lo, hi, x)[j],
            ) && trim(kept_lines(ls, lo, hi, x)[j]) != x,
        kept_lines(ls, lo, hi, x).len() == hi - lo ==> forall|k: int|
            lo <= k < hi ==> trim(#[trigger] ls[k]) != x,
    decreases hi - lo,
{
    if hi > lo {
        lemma_kept_lines(ls, lo, hi - 1, x);
        let r = kept_lines(ls, lo, hi - 1, x);
        let kk = kept_lines(ls, lo, hi, x);
        assert forall|j: int| 0 <= j < kk.len() implies line_in(ls, lo, hi, #[trigger] kk[j]) && trim(
            kk[j],
        ) != x by {
            if j < r.len() {
                assert(kk[j] == r[j]);
                let k = choose|k: int| lo <= k < hi - 1 && ls[k] == r[j];
            } else {
                assert(kk[j] == ls[hi - 1]);
            }
        }
    }
}

/// Adding entries to the exclude file puts every one of them in the
/// managed block (entries hold no line feed, no surrounding whitespace, and
/// are not the end marker).
pub proof fn law_exclude_add_holds_every_entry(c: Seq<char>, es: Seq<Seq<char>>)
    requires
        es.len() > 0,
        clean_entries(es),
    ensures
        block_holds(lines(with_entries(c, es).0), es),
{
    if section_of(lines(c)).0 is Some && section_of(lines(c)).1 is Some {
        lemma_add_to_block(c, es);
    } else {
        lemma_add_new_block(c, es);
    }
}

/// Adding the same entries a second time leaves the exclude file as it is
/// and reports no change.
pub proof fn law_exclude_add_is_idempotent(c: Seq<char>, es: Seq<Seq<char>>)
    requires
        clean_entries(es),
    ensures
        with_entries(with_entries(c, es).0, es) == (with_entries(c, es).0, false),
{
    if es.len() > 0 {
        law_exclude_add_holds_every_entry(c, es);
        let r = with_entries(c, es).0;
        let ls2 = lines(r);
        let s2 = section_of(ls2).0->0;
        let e2 = section_of(ls2).1->0;
        lemma_missing_entries(es, ls2, s2 + 1, e2);
    }
}

/// Adding entries to an existing block keeps every other line where it was:
/// the lines before the block's end marker, then the added entries, then
/// the end marker and everything after it (each line read back without a
/// final carriage return).
pub proof fn law_exclude_add_keeps_other_lines(c: Seq<char>, es: Seq<Seq<char>>)
    requires
        es.len() > 0,
        no_newlines(es),
        section_of(lines(c)).0 is Some,
        section_of(lines(c)).1 is Some,
    ensures
        ({
            let ls = lines(c);
            let s = section_of(ls).0->0;
            let e = section_of(ls).1->0;
            let missing = missing_entries(es, ls, s + 1, e);
            let r = with_entries(c, es).0;
            if missing.len() == 0 {
                r == c
            } else {
                lines(r) == strip_crs(ls.take(e) + missing + ls.skip(e))
            }
        }),
{
    let ls = lines(c);
    let s = section_of(ls).0->0;
    let e = section_of(ls).1->0;
    lemma_find_line(ls, section_start(), 0);
    lemma_find_line(ls, section_end(), s + 1);
    let missing = missing_entries(es, ls, s + 1, e);
    lemma_missing_entries(es, ls, s + 1, e);
    if missing.len() > 0 {
        let m = missing.len() as int;
        let l2 = ls.take(e) + missing + ls.skip(e);
        lemma_lines_no_newlines(c);
        assert(no_newlines(l2)) by {
            assert forall|k: int| 0 <= k < l2.len() implies !has_char(#[trigger] l2[k], '\n') by {
                if k < e {
                    assert(l2[k] == ls[k]);
                } else if k < e + m {
                    assert(l2[k] == missing[k - e]);
                    let i = choose|i: int| 0 <= i < es.len() && es[i] == missing[k - e];
                } else {
                    assert(l2[k] == ls[k - m]);
                }
            }
        }
        lemma_lines_unlines(l2);
    }
}

/// Removing an entry leaves no line of the managed block that trims to it,
/// and keeps every other line where it was (each read back without a final
/// carriage return).
pub proof fn law_exclude_remove_drops_entry(c: Seq<char>, x: Seq<char>)
    requires
        section_of(lines(c)).0 is Some,
        section_of(lines(c)).1 is Some,
    ensures
        ({
            let ls = lines(c);
            let s = section_of(ls).0->0;
            let e = section_of(ls).1->0;
            let kept = kept_lines(ls, s + 1, e, x);
            let r = without_entry(c, x).0;
            let ls2 = lines(r);
            &&& section_of(ls2).0 is Some
            &&& section_of(ls2).1 is Some
            &&& !has_line(ls2, section_of(ls2).0->0 + 1, section_of(ls2).1->0, x)
            &&& if kept.len() == e - s - 1 {
                r == c
            } else {
                ls2 == strip_crs(ls.take(s + 1) + kept + ls.skip(e))
            }
        }),
{
    let ls = lines(c);
    let s = section_of(ls).0->0;
    let e = section_of(ls).1->0;
    lemma_find_line(ls, section_start(), 0);
    lemma_find_line(ls, section_end(), s + 1);
    lemma_kept_lines(ls, s + 1, e, x);
    let kept = kept_lines(ls, s + 1, e, x);
    if kept.len() == e - s - 1 {
        assert(!has_line(ls, s + 1, e, x));
    } else {
        let kn = kept.len() as int;
        let l2 = ls.take(s + 1) + kept + ls.skip(e);
        lemma_lines_no_newlines(c);
        assert(no_newlines(l2)) by {
            assert forall|k: int| 0 <= k < l2.len() implies !has_char(#[trigger] l2[k], '\n') by {
                if k <= s {
                    assert(l2[k] == ls[k]);
                } else if k < s + 1 + kn {
                    assert(l2[k] == kept[k - s - 1]);
                    let q = choose|q: int| s + 1 <= q < e && ls[q] == kept[k - s - 1];
                } else {
                    assert(l2[k] == ls[k - s - 1 - kn + e]);
                }
            }
        }
        lemma_lines_unlines(l2);
        let n2 = lines(unlines(l2));
        assert(without_entry(c, x).0 == unlines(l2));
        assert(find_line(n2, section_start(), 0) == s) by {
            assert forall|k: int| 0 <= k < s implies trim(#[trigger] n2[k]) != section_start() by {
                assert(l2[k] == ls[k]);
            }
            assert(l2[s] == ls[s]);
            lemma_find_line_is(n2, section_start(), 0, s);
        }
        assert(find_line(n2, section_end(), s + 1) == s + 1 + kn) by {
            assert forall|k: int| s + 1 <= k < s + 1 + kn implies trim(#[trigger] n2[k])
                != section_end() by {
                assert(l2[k] == kept[k - s - 1]);
                let q = choose|q: int| s + 1 <= q < e && ls[q] == kept[k - s - 1];
            }
            assert(l2[s + 1 + kn] == ls[e]);
            lemma_find_line_is(n2, section_end(), s + 1, s + 1 + kn);
        }
        assert(section_of(n2) == (Some(s), Some(s + 1 + kn)));
        assert(!has_line(n2, s + 1, s + 1 + kn, x)) by {
            if has_line(n2, s + 1, s + 1 + kn, x) {
                let k = choose|k: int| s + 1 <= k < s + 1 + kn && trim(#[trigger] n2[k]) == x;
                assert(l2[k] == kept[k - s - 1]);
            }
        }
    }
}

/// The exclude entries of mappings without line feeds can all stand on a
/// line of the block, so adding them (as `clone` and `sync` do) puts every
/// one in the block and adding them again changes nothing.
pub proof fn law_mapping_entries_are_clean(mappings: Seq<Seq<char>>)
    requires
        no_newlines(mappings),
    ensures
        clean_entries(Seq::new(mappings.len(), |i: int| entry_for(mappings[i]))),
{
    let es = Seq::new(mappings.len(), |i: int| entry_for(mappings[i]));
    lemma_markers();
    reveal_strlit("# <<< git-sidecar (managed) <<<");
    assert forall|i: int| 0 <= i < es.len() implies !has_char(#[trigger] es[i], '\n') && trim(
        es[i],
    ) == es[i] && es[i] != section_end() by {
        let m = mappings[i];
        let inner = crate::text::trim_ch(m, '/');
        let e = es[i];
        assert(e == seq!['/'] + inner + seq!['/']);
        crate::text::lemma_trim_end_ch_prefix(m, '/');
        lemma_trim_start_ch_suffix(crate::text::trim_end_ch(m, '/'), '/');
        assert(!has_char(e, '\n')) by {
            if has_char(e, '\n') {
                let k = choose|k: int| 0 <= k < e.len() && e[k] == '\n';
                assert(e[k] == inner[k - 1]);
                let t = crate::text::trim_end_ch(m, '/');
                let d = t.len() - inner.len();
                assert(inner[k - 1] == t[d + k - 1]);
                assert(t[d + k - 1] == m[d + k - 1]);
            }
        }
        assert(e.last() == '/' && e[0] == '/');
        assert(!is_ws('/'));
        assert(trim_end(e) == e);
        assert(e[0] != section_end()[0]);
    }
}

/// `trim_start_ch` keeps a suffix.
proof fn lemma_trim_start_ch_suffix(s: Seq<char>, ch: char)
    ensures
        crate::text::trim_start_ch(s, ch).len() <= s.len(),
        crate::text::trim_start_ch(s, ch) == s.skip(
            s.len() - crate::text::trim_start_ch(s, ch).len(),
        ),
    decreases s.len(),
{
    if s.len() > 0 && s[0] == ch {
        lemma_trim_start_ch_suffix(s.drop_first(), ch);
        let n = crate::text::trim_start_ch(s, ch).len();
        assert(s.drop_first().skip(s.drop_first().len() - n) =~= s.skip(s.len() - n));
    } else {
        assert(s.skip(0) =~= s);
    }
}

/// `with_excluded_entries` reports a change exactly when its output differs
/// from its input.
pub proof fn law_exclude_add_reports_change(c: Seq<char>, es: Seq<Seq<char>>)
    requires
        clean_entries(es),
    ensures
        with_entries(c, es).1 == (with_entries(c, es).0 != c),
{
    if es.len() > 0 {
        let ls = lines(c);
        if section_of(ls).0 is Some && section_of(ls).1 is Some {
            let s = section_of(ls).0->0;
            let e = section_of(ls).1->0;
            lemma_find_line(ls, section_start(), 0);
            lemma_find_line(ls, section_end(), s + 1);
            let missing = missing_entries(es, ls, s + 1, e);
            if missing.len() > 0 {
                lemma_missing_entries(es, ls, s + 1, e);
                assert(no_newlines(es)) by {
                    assert forall|i: int| 0 <= i < es.len() implies !has_char(#[trigger] es[i], '\n') by {}
                }
                law_exclude_add_keeps_other_lines(c, es);
                let r = with_entries(c, es).0;
                assert(lines(r).len() == ls.len() + missing.len());
                if r == c {
                    assert(lines(r).len() == ls.len());
                }
            }
        } else {
            law_exclude_add_holds_every_entry(c, es);
        }
    }
}

/// The lines of a block range that keep all of them.
proof fn lemma_kept_all(ls: Seq<Seq<char>>, lo: int, hi: int, x: Seq<char>)
    requires
        0 <= lo <= hi <= ls.len(),
        forall|k: int| lo <= k < hi ==> trim(#[trigger] ls[k]) != x,
    ensures
        kept_lines(ls, lo, hi, x) == ls.subrange(lo, hi),
    decreases hi - lo,
{
    if hi > lo {
        lemma_kept_all(ls, lo, hi - 1, x);
        assert(ls.subrange(lo, hi) =~= ls.subrange(lo, hi - 1).push(ls[hi - 1]));
    } else {
        assert(ls.subrange(lo, hi) =~= Seq::<Seq<char>>::empty());
    }
}

/// Adding an entry the block lacks and then removing it gives back the
/// exclude file as it was (for a file that ends in a line feed, holds no
/// carriage return and has a managed block; the entry holds no line feed, no
/// surrounding whitespace and is not the end marker).
pub proof fn law_exclude_add_then_remove(c: Seq<char>, x: Seq<char>)
    requires
        c.len() > 0,
        c.last() == '\n',
        !has_char(c, '\r'),
        section_of(lines(c)).0 is Some,
        section_of(lines(c)).1 is Some,
        !has_line(lines(c), section_of(lines(c)).0->0 + 1, section_of(lines(c)).1->0, x),
        clean_entries(seq![x]),
    ensures
        without_entry(with_entries(c, seq![x]).0, x) == (c, true),
{
    let ls = lines(c);
    let s = section_of(ls).0->0;
    let e = section_of(ls).1->0;
    let es = seq![x];
    assert(!has_char(x, '\n') && trim(x) == x && x != section_end()) by {
        assert(es[0] == x);
    }
    lemma_find_line(ls, section_start(), 0);
    lemma_find_line(ls, section_end(), s + 1);
    lemma_missing_entries(es, ls, s + 1, e);
    let missing = missing_entries(es, ls, s + 1, e);
    assert(missing == es) by {
        assert(es.drop_last() =~= Seq::<Seq<char>>::empty());
        assert(missing_entries(es.drop_last(), ls, s + 1, e) =~= Seq::<Seq<char>>::empty());
        assert(es.last() == x);
        assert(missing =~= es);
    }
    let l2 = ls.take(e) + es + ls.skip(e);
    let r1 = with_entries(c, es).0;
    assert(r1 == unlines(l2));
    lemma_lines_no_newlines(c);
    crate::text::lemma_lines_without(c, '\r');
    assert(no_newlines(l2)) by {
        assert forall|k: int| 0 <= k < l2.len() implies !has_char(#[trigger] l2[k], '\n') by {
            if k < e {
                assert(l2[k] == ls[k]);
            } else if k > e {
                assert(l2[k] == ls[k - 1]);
            } else {
                assert(l2[k] == x);
            }
        }
    }
    lemma_lines_unlines(l2);
    let n2 = lines(r1);
    assert(n2 =~= l2) by {
        assert forall|k: int| 0 <= k < l2.len() implies #[trigger] strip_cr(l2[k]) == l2[k] by {
            if k == e {
                assert(l2[k] == x);
                if x.len() > 0 {
                    crate::text::lemma_trimmed_last(x);
                    assert(x[x.len() - 1] == x.last());
                }
            } else {
                let q = if k < e { k } else { k - 1 };
                assert(l2[k] == ls[q]);
                assert(!has_char(ls[q], '\r'));
                if ls[q].len() > 0 {
                    assert(ls[q][ls[q].len() - 1] == ls[q].last());
                }
            }
        }
    }
    lemma_markers();
    assert(find_line(n2, section_start(), 0) == s) by {
        assert forall|k: int| 0 <= k < s implies trim(#[trigger] n2[k]) != section_start() by {
            assert(l2[k] == ls[k]);
        }
        assert(l2[s] == ls[s]);
        lemma_find_line_is(n2, section_start(), 0, s);
    }
    assert(find_line(n2, section_end(), s + 1) == e + 1) by {
        assert forall|k: int| s + 1 <= k < e + 1 implies trim(#[trigger] n2[k]) != section_end() by {
            if k < e {
                assert(l2[k] == ls[k]);
            } else {
                assert(l2[k] == x);
            }
        }
        assert(l2[e + 1] == ls[e]);
        lemma_find_line_is(n2, section_end(), s + 1, e + 1);
    }
    assert(section_of(n2) == (Some(s), Some(e + 1)));
    // the kept block lines are the original ones
    let kept = kept_lines(n2, s + 1, e + 1, x);
    assert(kept_lines(n2, s + 1, e + 1, x) == kept_lines(n2, s + 1, e, x)) by {
        assert(trim(n2[e]) == x);
    }
    assert forall|k: int| s + 1 <= k < e implies trim(#[trigger] n2[k]) != x by {
        assert(n2[k] == ls[k]);
    }
    lemma_kept_all(n2, s + 1, e, x);
    assert(kept =~= ls.subrange(s + 1, e));
    assert(n2.take(s + 1) + kept + n2.skip(e + 1) =~= ls);
    crate::text::lemma_join_terminated(ls);
    crate::text::lemma_terminated_lines_of(c);
}

} // verus!
