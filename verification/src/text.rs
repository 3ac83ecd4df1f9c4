//! Character-level helpers shared by the other modules: conversions between
//! `str` and `Vec<char>`, whitespace trimming, splitting, line splitting and
//! joining, each with the specification of the std operation it mirrors.

use vstd::prelude::*;

verus! {

/// `String::push` appends one character to the string.
pub assume_specification[ String::push ](s: &mut String, ch: char)
    ensures
        final(s)@ == old(s)@.push(ch),
;

// ---------------------------------------------------------------------------
// Specifications
// ---------------------------------------------------------------------------

/// The views of a sequence of character vectors.
pub open spec fn views(v: Seq<Vec<char>>) -> Seq<Seq<char>> {
    Seq::new(v.len(), |i: int| v[i]@)
}

/// `char::is_whitespace`: the Unicode `White_Space` property.
pub open spec fn is_ws(c: char) -> bool {
    let u = c as u32;
    ||| 0x09 <= u <= 0x0d
    ||| u == 0x20
    ||| u == 0x85
    ||| u == 0xa0
    ||| u == 0x1680
    ||| 0x2000 <= u <= 0x200a
    ||| u == 0x2028
    ||| u == 0x2029
    ||| u == 0x202f
    ||| u == 0x205f
    ||| u == 0x3000
}

/// `str::trim_end`.
pub open spec fn trim_end(s: Seq<char>) -> Seq<char>
    decreases s.len(),
{
    if s.len() > 0 && is_ws(s.last()) {
        trim_end(s.drop_last())
    } else {
        s
    }
}

/// `str::trim_start`.
pub open spec fn trim_start(s: Seq<char>) -> Seq<char>
    decreases s.len(),
{
    if s.len() > 0 && is_ws(s[0]) {
        trim_start(s.drop_first())
    } else {
        s
    }
}

/// `str::trim`.
pub open spec fn trim(s: Seq<char>) -> Seq<char> {
    trim_start(trim_end(s))
}

/// `str::trim_end_matches(ch)` for a single character.
pub open spec fn trim_end_ch(s: Seq<char>, ch: char) -> Seq<char>
    decreases s.len(),
{
    if s.len() > 0 && s.last() == ch {
        trim_end_ch(s.drop_last(), ch)
    } else {
        s
    }
}

/// `str::trim_start_matches(ch)` for a single character.
pub open spec fn trim_start_ch(s: Seq<char>, ch: char) -> Seq<char>
    decreases s.len(),
{
    if s.len() > 0 && s[0] == ch {
        trim_start_ch(s.drop_first(), ch)
    } else {
        s
    }
}

/// `str::trim_matches(ch)` for a single character.
pub open spec fn trim_ch(s: Seq<char>, ch: char) -> Seq<char> {
    trim_start_ch(trim_end_ch(s, ch), ch)
}

/// Index of the first `c` in `s` at or after `from`, or `s.len()` when
/// there is none.
pub open spec fn find_from(s: Seq<char>, c: char, from: int) -> int
    decreases s.len() - from,
{
    if from >= s.len() {
        s.len() as int
    } else if s[from] == c {
        from
    } else {
        find_from(s, c, from + 1)
    }
}

/// Whether `c` occurs in `s`.
pub open spec fn has_char(s: Seq<char>, c: char) -> bool {
    exists|i: int| 0 <= i < s.len() && s[i] == c
}

/// Index of the last `c` in `s`, or -1 when there is none.
pub open spec fn rfind(s: Seq<char>, c: char) -> int
    decreases s.len(),
{
    if s.len() == 0 {
        -1
    } else if s.last() == c {
        s.len() - 1
    } else {
        rfind(s.drop_last(), c)
    }
}

/// Whether `pat` occurs in `s` starting at index `i`.
pub open spec fn occurs_at(s: Seq<char>, pat: Seq<char>, i: int) -> bool {
    0 <= i && i + pat.len() <= s.len() && s.subrange(i, i + pat.len()) == pat
}

/// Index of the first occurrence of `pat` in `s` at or after `from`, or
/// `s.len()` when there is none.
pub open spec fn find_pat_from(s: Seq<char>, pat: Seq<char>, from: int) -> int
    decreases s.len() - from,
{
    if from >= s.len() {
        s.len() as int
    } else if occurs_at(s, pat, from) {
        from
    } else {
        find_pat_from(s, pat, from + 1)
    }
}

/// `str::split(c)`: the pieces between occurrences of `c` (always at least
/// one piece).
pub open spec fn split_char(s: Seq<char>, c: char) -> Seq<Seq<char>>
    decreases s.len(),
{
    if s.len() == 0 {
        seq![Seq::<char>::empty()]
    } else {
        let r = split_char(s.drop_last(), c);
        if s.last() == c {
            r.push(Seq::<char>::empty())
        } else {
            r.update(r.len() - 1, r.last().push(s.last()))
        }
    }
}

/// `[T]::join(sep)` on strings.
pub open spec fn join(parts: Seq<Seq<char>>, sep: Seq<char>) -> Seq<char>
    decreases parts.len(),
{
    if parts.len() == 0 {
        Seq::<char>::empty()
    } else if parts.len() == 1 {
        parts[0]
    } else {
        join(parts.drop_last(), sep) + sep + parts.last()
    }
}

/// One trailing carriage return removed, as `str::lines` does for a line
/// that ended in a line feed.
pub open spec fn strip_cr(s: Seq<char>) -> Seq<char> {
    if s.len() > 0 && s.last() == '\r' {
        s.drop_last()
    } else {
        s
    }
}

/// The lines of `s` from position `i` on, the current line having started at
/// `start`.
pub open spec fn lines_acc(s: Seq<char>, start: int, i: int) -> Seq<Seq<char>>
    decreases s.len() - i,
{
    if i >= s.len() {
        if start < s.len() {
            seq![s.subrange(start, s.len() as int)]
        } else {
            Seq::<Seq<char>>::empty()
        }
    } else if s[i] == '\n' {
        seq![strip_cr(s.subrange(start, i))] + lines_acc(s, i + 1, i + 1)
    } else {
        lines_acc(s, start, i + 1)
    }
}

/// `str::lines`: split at `\n`, one `\r` before it dropped, no empty line
/// after a final `\n`.
pub open spec fn lines(s: Seq<char>) -> Seq<Seq<char>> {
    lines_acc(s, 0, 0)
}

/// The views of a vector after a push.
pub proof fn lemma_views_push(v: Seq<Vec<char>>, x: Vec<char>)
    ensures
        views(v.push(x)) == views(v).push(x@),
{
    assert(views(v.push(x)) =~= views(v).push(x@));
}

// ---------------------------------------------------------------------------
// Conversions
// ---------------------------------------------------------------------------

/// The characters of `s`, in order.
pub fn chars_of(s: &str) -> (res: Vec<char>)
    ensures
        res@ == s@,
{
    let mut res: Vec<char> = Vec::new();
    for c in it: s.chars()
        invariant
            res@ == it.seq().take(it.index() as int),
            it.seq() == s@,
    {
        res.push(c);
    }
    res
}

/// A `String` holding exactly the given characters.
pub fn string_of(v: &[char]) -> (res: String)
    ensures
        res@ == v@,
{
    let mut res = String::new();
    let mut i: usize = 0;
    while i < v.len()
        invariant
            i <= v@.len(),
            res@ == v@.take(i as int),
        decreases v@.len() - i,
    {
        res.push(v[i]);
        i += 1;
        assert(res@ =~= v@.take(i as int));
    }
    assert(v@.take(i as int) =~= v@);
    res
}

/// Appends the characters of `src` to `dst`.
pub fn push_all(dst: &mut Vec<char>, src: &[char])
    ensures
        final(dst)@ == old(dst)@ + src@,
{
    let mut i: usize = 0;
    while i < src.len()
        invariant
            i <= src@.len(),
            dst@ == old(dst)@ + src@.take(i as int),
        decreases src@.len() - i,
    {
        dst.push(src[i]);
        i += 1;
        assert(dst@ =~= old(dst)@ + src@.take(i as int));
    }
    assert(src@.take(i as int) =~= src@);
}

/// Appends the characters of `src` to `dst`.
pub fn push_str(dst: &mut Vec<char>, src: &str)
    ensures
        final(dst)@ == old(dst)@ + src@,
{
    let v = chars_of(src);
    push_all(dst, v.as_slice());
}

/// A copy of `v[lo..hi]`.
pub fn copy_range(v: &[char], lo: usize, hi: usize) -> (res: Vec<char>)
    requires
        lo <= hi <= v@.len(),
    ensures
        res@ == v@.subrange(lo as int, hi as int),
{
    let mut res: Vec<char> = Vec::new();
    let mut i = lo;
    while i < hi
        invariant
            lo <= i <= hi <= v@.len(),
            res@ == v@.subrange(lo as int, i as int),
        decreases hi - i,
    {
        res.push(v[i]);
        i += 1;
        assert(res@ =~= v@.subrange(lo as int, i as int));
    }
    res
}

/// Whether the two character sequences are equal.
pub fn eq_chars(a: &[char], b: &[char]) -> (res: bool)
    ensures
        res == (a@ == b@),
{
    if a.len() != b.len() {
        return false;
    }
    let mut i: usize = 0;
    while i < a.len()
        invariant
            a@.len() == b@.len(),
            i <= a@.len(),
            forall|j: int| 0 <= j < i ==> a@[j] == b@[j],
        decreases a@.len() - i,
    {
        if a[i] != b[i] {
            return false;
        }
        i += 1;
    }
    assert(a@ =~= b@);
    true
}

/// Whether `a` equals the characters of `b`.
pub fn eq_str(a: &[char], b: &str) -> (res: bool)
    ensures
        res == (a@ == b@),
{
    let v = chars_of(b);
    eq_chars(a, v.as_slice())
}

/// `char::is_whitespace`.
pub fn is_whitespace(c: char) -> (res: bool)
    ensures
        res == is_ws(c),
{
    let u = c as u32;
    (0x09 <= u && u <= 0x0d) || u == 0x20 || u == 0x85 || u == 0xa0 || u == 0x1680 || (0x2000
        <= u && u <= 0x200a) || u == 0x2028 || u == 0x2029 || u == 0x202f || u == 0x205f || u
        == 0x3000
}


// ---------------------------------------------------------------------------
// Trimming
// ---------------------------------------------------------------------------

/// End index of `v` with trailing whitespace removed.
pub fn trim_end_len(v: &[char]) -> (j: usize)
    ensures
        j <= v@.len(),
        trim_end(v@) == v@.take(j as int),
{
    let mut j = v.len();
    assert(v@.take(j as int) =~= v@);
    while j > 0 && is_whitespace(v[j - 1])
        invariant
            j <= v@.len(),
            trim_end(v@) == trim_end(v@.take(j as int)),
        decreases j,
    {
        assert(v@.take(j as int).drop_last() =~= v@.take(j - 1));
        j -= 1;
    }
    j
}

/// Start index of `v[..hi]` with leading whitespace removed.
pub fn trim_start_idx(v: &[char], hi: usize) -> (i: usize)
    requires
        hi <= v@.len(),
    ensures
        i <= hi,
        trim_start(v@.take(hi as int)) == v@.subrange(i as int, hi as int),
{
    let mut i: usize = 0;
    assert(v@.take(hi as int) =~= v@.subrange(0, hi as int));
    while i < hi && is_whitespace(v[i])
        invariant
            i <= hi <= v@.len(),
            trim_start(v@.take(hi as int)) == trim_start(v@.subrange(i as int, hi as int)),
        decreases hi - i,
    {
        assert(v@.subrange(i as int, hi as int).drop_first() =~= v@.subrange(i + 1, hi as int));
        i += 1;
    }
    i
}

/// End index of `v` with trailing `ch` removed.
pub fn trim_end_ch_len(v: &[char], ch: char) -> (j: usize)
    ensures
        j <= v@.len(),
        trim_end_ch(v@, ch) == v@.take(j as int),
{
    let mut j = v.len();
    assert(v@.take(j as int) =~= v@);
    while j > 0 && v[j - 1] == ch
        invariant
            j <= v@.len(),
            trim_end_ch(v@, ch) == trim_end_ch(v@.take(j as int), ch),
        decreases j,
    {
        assert(v@.take(j as int).drop_last() =~= v@.take(j - 1));
        j -= 1;
    }
    j
}

/// Start index of `v[..hi]` with leading `ch` removed.
pub fn trim_start_ch_idx(v: &[char], hi: usize, ch: char) -> (i: usize)
    requires
        hi <= v@.len(),
    ensures
        i <= hi,
        trim_start_ch(v@.take(hi as int), ch) == v@.subrange(i as int, hi as int),
{
    let mut i: usize = 0;
    assert(v@.take(hi as int) =~= v@.subrange(0, hi as int));
    while i < hi && v[i] == ch
        invariant
            i <= hi <= v@.len(),
            trim_start_ch(v@.take(hi as int), ch) == trim_start_ch(
                v@.subrange(i as int, hi as int),
                ch,
            ),
        decreases hi - i,
    {
        assert(v@.subrange(i as int, hi as int).drop_first() =~= v@.subrange(i + 1, hi as int));
        i += 1;
    }
    i
}

/// `str::trim`.
pub fn trim_ws(v: &[char]) -> (res: Vec<char>)
    ensures
        res@ == trim(v@),
{
    let j = trim_end_len(v);
    let i = trim_start_idx(v, j);
    copy_range(v, i, j)
}

/// `str::trim_end`.
pub fn trim_end_ws(v: &[char]) -> (res: Vec<char>)
    ensures
        res@ == trim_end(v@),
{
    let j = trim_end_len(v);
    copy_range(v, 0, j)
}

/// `str::trim_start`.
pub fn trim_start_ws(v: &[char]) -> (res: Vec<char>)
    ensures
        res@ == trim_start(v@),
{
    let i = trim_start_idx(v, v.len());
    assert(v@.take(v@.len() as int) =~= v@);
    copy_range(v, i, v.len())
}

/// `str::trim_end_matches(ch)`.
pub fn trim_end_char(v: &[char], ch: char) -> (res: Vec<char>)
    ensures
        res@ == trim_end_ch(v@, ch),
{
    let j = trim_end_ch_len(v, ch);
    copy_range(v, 0, j)
}

/// `str::trim_matches(ch)`.
pub fn trim_char(v: &[char], ch: char) -> (res: Vec<char>)
    ensures
        res@ == trim_ch(v@, ch),
{
    let j = trim_end_ch_len(v, ch);
    let i = trim_start_ch_idx(v, j, ch);
    copy_range(v, i, j)
}

/// Trailing whitespace is trimmed only from what follows a prefix that ends
/// in a non-whitespace character.
pub proof fn lemma_trim_end_append(x: Seq<char>, p: Seq<char>)
    requires
        x.len() > 0,
        !is_ws(x.last()),
    ensures
        trim_end(x + p) == x + trim_end(p),
    decreases p.len(),
{
    if p.len() == 0 {
        assert(x + p =~= x);
        assert(x + trim_end(p) =~= x);
    } else {
        assert((x + p).drop_last() =~= x + p.drop_last());
        assert((x + p).last() == p.last());
        lemma_trim_end_append(x, p.drop_last());
    }
}

/// Trailing `ch`s are trimmed only from what follows a prefix, when some of
/// the rest survives.
pub proof fn lemma_trim_end_ch_append(x: Seq<char>, r: Seq<char>, ch: char)
    requires
        trim_end_ch(r, ch).len() > 0,
    ensures
        trim_end_ch(x + r, ch) == x + trim_end_ch(r, ch),
    decreases r.len(),
{
    assert((x + r).last() == r.last());
    if r.last() == ch {
        assert((x + r).drop_last() =~= x + r.drop_last());
        lemma_trim_end_ch_append(x, r.drop_last(), ch);
    }
}

/// When all of the rest is trailing `ch`s, trimming reaches into the prefix.
pub proof fn lemma_trim_end_ch_append_all(x: Seq<char>, r: Seq<char>, ch: char)
    requires
        trim_end_ch(r, ch).len() == 0,
    ensures
        trim_end_ch(x + r, ch) == trim_end_ch(x, ch),
    decreases r.len(),
{
    if r.len() == 0 {
        assert(x + r =~= x);
    } else {
        assert((x + r).last() == r.last());
        assert((x + r).drop_last() =~= x + r.drop_last());
        lemma_trim_end_ch_append_all(x, r.drop_last(), ch);
    }
}

/// Nothing is trimmed from the front of a string that starts with a
/// non-whitespace character.
pub proof fn lemma_trim_start_fixed(y: Seq<char>)
    requires
        y.len() > 0,
        !is_ws(y[0]),
    ensures
        trim_start(y) == y,
{
}

/// `trim_end` keeps a prefix.
pub proof fn lemma_trim_end_prefix(s: Seq<char>)
    ensures
        trim_end(s).len() <= s.len(),
        trim_end(s) == s.take(trim_end(s).len() as int),
    decreases s.len(),
{
    if s.len() > 0 && is_ws(s.last()) {
        lemma_trim_end_prefix(s.drop_last());
        assert(s.drop_last().take(trim_end(s).len() as int) =~= s.take(trim_end(s).len() as int));
    } else {
        assert(s.take(s.len() as int) =~= s);
    }
}

/// `trim_start` never lengthens a string.
pub proof fn lemma_trim_start_len(s: Seq<char>)
    ensures
        trim_start(s).len() <= s.len(),
    decreases s.len(),
{
    if s.len() > 0 && is_ws(s[0]) {
        lemma_trim_start_len(s.drop_first());
    }
}

/// A non-empty string that trimming leaves unchanged ends in a
/// non-whitespace character.
pub proof fn lemma_trimmed_last(x: Seq<char>)
    requires
        x.len() > 0,
        trim(x) == x,
    ensures
        !is_ws(x.last()),
{
    if is_ws(x.last()) {
        lemma_trim_end_prefix(x.drop_last());
        lemma_trim_start_len(trim_end(x));
    }
}

/// `trim_end_ch` keeps a prefix.
pub proof fn lemma_trim_end_ch_prefix(s: Seq<char>, ch: char)
    ensures
        trim_end_ch(s, ch).len() <= s.len(),
        trim_end_ch(s, ch) == s.take(trim_end_ch(s, ch).len() as int),
    decreases s.len(),
{
    if s.len() > 0 && s.last() == ch {
        lemma_trim_end_ch_prefix(s.drop_last(), ch);
        assert(s.drop_last().take(trim_end_ch(s, ch).len() as int) =~= s.take(
            trim_end_ch(s, ch).len() as int,
        ));
    } else {
        assert(s.take(s.len() as int) =~= s);
    }
}

/// The last `c` of a concatenation: in the second part if it has one, else
/// in the first.
pub proof fn lemma_rfind_append(a: Seq<char>, b: Seq<char>, c: char)
    ensures
        rfind(a + b, c) == if rfind(b, c) >= 0 {
            a.len() + rfind(b, c)
        } else {
            rfind(a, c)
        },
    decreases b.len(),
{
    if b.len() == 0 {
        assert(a + b =~= a);
    } else {
        assert((a + b).drop_last() =~= a + b.drop_last());
        assert((a + b).last() == b.last());
        lemma_rfind_append(a, b.drop_last(), c);
    }
}

/// `split_char` always yields at least one piece.
pub proof fn lemma_split_nonempty(s: Seq<char>, c: char)
    ensures
        split_char(s, c).len() >= 1,
    decreases s.len(),
{
    if s.len() > 0 {
        lemma_split_nonempty(s.drop_last(), c);
    }
}

/// No piece of `split_char(s, c)` holds `c`.
pub proof fn lemma_split_pieces(s: Seq<char>, c: char)
    ensures
        forall|i: int| 0 <= i < split_char(s, c).len() ==> !has_char(#[trigger] split_char(s, c)[i], c),
    decreases s.len(),
{
    if s.len() > 0 {
        lemma_split_pieces(s.drop_last(), c);
        lemma_split_nonempty(s.drop_last(), c);
        let r = split_char(s.drop_last(), c);
        if s.last() != c {
            let l = r.last().push(s.last());
            assert(!has_char(l, c)) by {
                if has_char(l, c) {
                    let k = choose|k: int| 0 <= k < l.len() && l[k] == c;
                    assert(r.last() == r[r.len() - 1]);
                    if k < l.len() - 1 {
                        assert(l[k] == r.last()[k]);
                    }
                }
            }
            assert forall|i: int| 0 <= i < split_char(s, c).len() implies !has_char(
                #[trigger] split_char(s, c)[i],
                c,
            ) by {
                if i < r.len() - 1 {
                    assert(split_char(s, c)[i] == r[i]);
                }
            }
        } else {
            assert forall|i: int| 0 <= i < split_char(s, c).len() implies !has_char(
                #[trigger] split_char(s, c)[i],
                c,
            ) by {
                if i < r.len() {
                    assert(split_char(s, c)[i] == r[i]);
                }
            }
        }
    }
}

/// A string without `c` is one piece.
pub proof fn lemma_split_no_sep(s: Seq<char>, c: char)
    requires
        !has_char(s, c),
    ensures
        split_char(s, c) == seq![s],
    decreases s.len(),
{
    if s.len() > 0 {
        assert(!has_char(s.drop_last(), c)) by {
            if has_char(s.drop_last(), c) {
                let k = choose|k: int| 0 <= k < s.drop_last().len() && s.drop_last()[k] == c;
                assert(s[k] == c);
            }
        }
        lemma_split_no_sep(s.drop_last(), c);
        assert(s.last() != c) by {
            assert(s[s.len() - 1] == s.last());
        }
        assert(s.drop_last().push(s.last()) =~= s);
        assert(split_char(s, c) =~= seq![s]);
    } else {
        assert(s =~= Seq::<char>::empty());
    }
}

/// Splitting at a separator between two parts splits each part.
pub proof fn lemma_split_append(a: Seq<char>, b: Seq<char>, c: char)
    ensures
        split_char(a + seq![c] + b, c) == split_char(a, c) + split_char(b, c),
    decreases b.len(),
{
    let s = a + seq![c] + b;
    if b.len() == 0 {
        assert(s =~= a.push(c));
        assert(s.drop_last() =~= a);
        assert(split_char(b, c) =~= seq![Seq::<char>::empty()]);
        assert(split_char(s, c) =~= split_char(a, c) + split_char(b, c));
    } else {
        assert(s.drop_last() =~= a + seq![c] + b.drop_last());
        assert(s.last() == b.last());
        lemma_split_append(a, b.drop_last(), c);
        lemma_split_nonempty(b.drop_last(), c);
        let ra = split_char(a, c);
        let rb = split_char(b.drop_last(), c);
        if b.last() == c {
            assert(split_char(s, c) =~= ra + rb.push(Seq::<char>::empty()));
        } else {
            let r = ra + rb;
            assert(r.last() == rb.last());
            assert(r.update(r.len() - 1, r.last().push(b.last())) =~= ra + rb.update(
                rb.len() - 1,
                rb.last().push(b.last()),
            ));
        }
    }
}

/// Joining pieces without the separator and splitting again gives them
/// back.
pub proof fn lemma_split_join(parts: Seq<Seq<char>>, c: char)
    requires
        parts.len() > 0,
        forall|i: int| 0 <= i < parts.len() ==> !has_char(#[trigger] parts[i], c),
    ensures
        split_char(join(parts, seq![c]), c) == parts,
    decreases parts.len(),
{
    if parts.len() == 1 {
        lemma_split_no_sep(parts[0], c);
        assert(parts =~= seq![parts[0]]);
    } else {
        let d = parts.drop_last();
        assert forall|i: int| 0 <= i < d.len() implies !has_char(#[trigger] d[i], c) by {
            assert(d[i] == parts[i]);
        }
        lemma_split_join(d, c);
        assert(parts.last() == parts[parts.len() - 1]);
        lemma_split_no_sep(parts.last(), c);
        lemma_split_append(join(d, seq![c]), parts.last(), c);
        assert(d + seq![parts.last()] =~= parts);
    }
}

// ---------------------------------------------------------------------------
// Facts about lines
// ---------------------------------------------------------------------------

/// Every character of `s` is whitespace.
pub open spec fn all_ws(s: Seq<char>) -> bool {
    forall|i: int| 0 <= i < s.len() ==> is_ws(#[trigger] s[i])
}

/// Each line with one final carriage return dropped.
pub open spec fn strip_crs(ls: Seq<Seq<char>>) -> Seq<Seq<char>> {
    Seq::new(ls.len(), |i: int| strip_cr(ls[i]))
}

/// No line holds a line feed.
pub open spec fn no_newlines(ls: Seq<Seq<char>>) -> bool {
    forall|i: int| 0 <= i < ls.len() ==> !has_char(#[trigger] ls[i], '\n')
}

/// Splitting into lines runs through a first part that ends in a line feed
/// on its own.
proof fn lemma_lines_acc_prefix(a: Seq<char>, b: Seq<char>, start: int, i: int)
    requires
        a.len() > 0,
        a.last() == '\n',
        0 <= start <= i <= a.len(),
        i == a.len() ==> start == a.len(),
    ensures
        lines_acc(a + b, start, i) == lines_acc(a, start, i) + lines_acc(
            a + b,
            a.len() as int,
            a.len() as int,
        ),
    decreases a.len() - i,
{
    let s = a + b;
    if i == a.len() {
        assert(lines_acc(a, start, i) =~= Seq::<Seq<char>>::empty());
        assert(lines_acc(a, start, i) + lines_acc(s, a.len() as int, a.len() as int) =~= lines_acc(
            s,
            a.len() as int,
            a.len() as int,
        ));
    } else {
        assert(s[i] == a[i]);
        if a[i] == '\n' {
            assert(s.subrange(start, i) =~= a.subrange(start, i));
            lemma_lines_acc_prefix(a, b, i + 1, i + 1);
            assert(seq![strip_cr(a.subrange(start, i))] + lines_acc(a, i + 1, i + 1) + lines_acc(
                s,
                a.len() as int,
                a.len() as int,
            ) =~= seq![strip_cr(a.subrange(start, i))] + (lines_acc(a, i + 1, i + 1) + lines_acc(
                s,
                a.len() as int,
                a.len() as int,
            )));
        } else {
            assert(i + 1 < a.len()) by {
                assert(a[a.len() - 1] == a.last());
            }
            lemma_lines_acc_prefix(a, b, start, i + 1);
        }
    }
}

/// Splitting into lines from position `k` on is splitting what follows `k`.
proof fn lemma_lines_acc_shift(s: Seq<char>, k: int, start: int, i: int)
    requires
        0 <= k <= s.len(),
        0 <= start <= i <= s.len() - k,
    ensures
        lines_acc(s, k + start, k + i) == lines_acc(s.skip(k), start, i),
    decreases s.len() - k - i,
{
    let t = s.skip(k);
    if i >= t.len() {
        if start < t.len() {
            assert(s.subrange(k + start, s.len() as int) =~= t.subrange(start, t.len() as int));
        }
    } else {
        assert(t[i] == s[k + i]);
        if t[i] == '\n' {
            assert(s.subrange(k + start, k + i) =~= t.subrange(start, i));
            lemma_lines_acc_shift(s, k, i + 1, i + 1);
        } else {
            lemma_lines_acc_shift(s, k, start, i + 1);
        }
    }
}

/// The lines of two parts, the first ending in a line feed.
pub proof fn lemma_lines_append(a: Seq<char>, b: Seq<char>)
    requires
        a.len() > 0,
        a.last() == '\n',
    ensures
        lines(a + b) == lines(a) + lines(b),
{
    lemma_lines_acc_prefix(a, b, 0, 0);
    lemma_lines_acc_shift(a + b, a.len() as int, 0, 0);
    assert((a + b).skip(a.len() as int) =~= b);
}

/// A stretch without line feeds adds nothing until its end.
proof fn lemma_lines_acc_run(s: Seq<char>, start: int, i: int, j: int)
    requires
        0 <= start <= i <= j <= s.len(),
        forall|k: int| i <= k < j ==> s[k] != '\n',
    ensures
        lines_acc(s, start, i) == lines_acc(s, start, j),
    decreases j - i,
{
    if i < j {
        lemma_lines_acc_run(s, start, i + 1, j);
    }
}

/// A line without a line feed, followed by one.
pub proof fn lemma_lines_one(x: Seq<char>)
    requires
        !has_char(x, '\n'),
    ensures
        lines(x + seq!['\n']) == seq![strip_cr(x)],
{
    let s = x + seq!['\n'];
    assert forall|k: int| 0 <= k < x.len() implies s[k] != '\n' by {
        assert(s[k] == x[k]);
    }
    lemma_lines_acc_run(s, 0, 0, x.len() as int);
    assert(s[x.len() as int] == '\n');
    assert(s.subrange(0, x.len() as int) =~= x);
    assert(lines_acc(s, x.len() as int + 1, x.len() as int + 1) =~= Seq::<Seq<char>>::empty());
    assert(seq![strip_cr(x)] + Seq::<Seq<char>>::empty() =~= seq![strip_cr(x)]);
}

/// Lines each followed by a line feed split back into those lines, each
/// with one final carriage return dropped.
pub proof fn lemma_lines_terminated(ls: Seq<Seq<char>>)
    requires
        no_newlines(ls),
    ensures
        lines(terminated_lines(ls)) == strip_crs(ls),
    decreases ls.len(),
{
    if ls.len() == 0 {
        assert(lines(Seq::<char>::empty()) =~= Seq::<Seq<char>>::empty());
        assert(strip_crs(ls) =~= Seq::<Seq<char>>::empty());
    } else {
        let d = ls.drop_last();
        assert(no_newlines(d)) by {
            assert forall|i: int| 0 <= i < d.len() implies !has_char(#[trigger] d[i], '\n') by {
                assert(d[i] == ls[i]);
            }
        }
        lemma_lines_terminated(d);
        assert(ls.last() == ls[ls.len() - 1]);
        lemma_lines_one(ls.last());
        let a = terminated_lines(d);
        let b = ls.last() + seq!['\n'];
        assert(terminated_lines(ls) =~= a + b);
        if d.len() > 0 {
            assert(a.last() == '\n');
            lemma_lines_append(a, b);
        } else {
            assert(a =~= Seq::<char>::empty());
            assert(a + b =~= b);
        }
        assert(strip_crs(ls) =~= strip_crs(d) + seq![strip_cr(ls.last())]);
    }
}

/// Each line followed by a line feed.
pub open spec fn terminated_lines(ls: Seq<Seq<char>>) -> Seq<char>
    decreases ls.len(),
{
    if ls.len() == 0 {
        Seq::<char>::empty()
    } else {
        terminated_lines(ls.drop_last()) + ls.last() + seq!['\n']
    }
}

/// Terminating two runs of lines one after the other.
pub proof fn lemma_terminated_concat(a: Seq<Seq<char>>, b: Seq<Seq<char>>)
    ensures
        terminated_lines(a + b) == terminated_lines(a) + terminated_lines(b),
    decreases b.len(),
{
    if b.len() == 0 {
        assert(a + b =~= a);
        assert(terminated_lines(b) =~= Seq::<char>::empty());
        assert(terminated_lines(a) + terminated_lines(b) =~= terminated_lines(a));
    } else {
        assert((a + b).drop_last() =~= a + b.drop_last());
        assert((a + b).last() == b.last());
        lemma_terminated_concat(a, b.drop_last());
        assert(terminated_lines(a + b) =~= terminated_lines(a) + terminated_lines(b));
    }
}

/// Lines joined by line feeds with a final one are the lines each followed
/// by a line feed.
pub proof fn lemma_join_terminated(ls: Seq<Seq<char>>)
    requires
        ls.len() > 0,
    ensures
        join(ls, seq!['\n']) + seq!['\n'] == terminated_lines(ls),
    decreases ls.len(),
{
    if ls.len() == 1 {
        assert(ls.drop_last() =~= Seq::<Seq<char>>::empty());
        assert(ls.last() == ls[0]);
        assert(terminated_lines(ls.drop_last()) =~= Seq::<char>::empty());
        assert(terminated_lines(ls) =~= ls[0] + seq!['\n']);
    } else {
        lemma_join_terminated(ls.drop_last());
        assert(join(ls, seq!['\n']) + seq!['\n'] =~= (join(ls.drop_last(), seq!['\n']) + seq![
            '\n',
        ]) + ls.last() + seq!['\n']);
    }
}

/// The lines of a string hold no line feed.
proof fn lemma_lines_acc_no_newlines(s: Seq<char>, start: int, i: int)
    requires
        0 <= start <= i <= s.len(),
        forall|k: int| start <= k < i ==> s[k] != '\n',
    ensures
        no_newlines(lines_acc(s, start, i)),
    decreases s.len() - i,
{
    let r = lines_acc(s, start, i);
    if i >= s.len() {
        if start < s.len() {
            let x = s.subrange(start, s.len() as int);
            assert(!has_char(x, '\n')) by {
                if has_char(x, '\n') {
                    let k = choose|k: int| 0 <= k < x.len() && x[k] == '\n';
                    assert(x[k] == s[start + k]);
                }
            }
            assert(r[0] == x);
        }
    } else if s[i] == '\n' {
        lemma_lines_acc_no_newlines(s, i + 1, i + 1);
        let x = s.subrange(start, i);
        let y = strip_cr(x);
        assert(!has_char(y, '\n')) by {
            if has_char(y, '\n') {
                let k = choose|k: int| 0 <= k < y.len() && y[k] == '\n';
                assert(y[k] == x[k]);
                assert(x[k] == s[start + k]);
            }
        }
        let rest = lines_acc(s, i + 1, i + 1);
        assert forall|j: int| 0 <= j < r.len() implies !has_char(#[trigger] r[j], '\n') by {
            if j == 0 {
                assert(r[0] == y);
            } else {
                assert(r[j] == rest[j - 1]);
            }
        }
    } else {
        lemma_lines_acc_no_newlines(s, start, i + 1);
    }
}

/// The lines of a string hold no line feed.
pub proof fn lemma_lines_no_newlines(s: Seq<char>)
    ensures
        no_newlines(lines(s)),
{
    lemma_lines_acc_no_newlines(s, 0, 0);
}

/// Trailing whitespace added to a string trims away again.
pub proof fn lemma_trim_end_ws_suffix(x: Seq<char>, w: Seq<char>)
    requires
        all_ws(w),
    ensures
        trim_end(x + w) == trim_end(x),
    decreases w.len(),
{
    if w.len() == 0 {
        assert(x + w =~= x);
    } else {
        assert((x + w).drop_last() =~= x + w.drop_last());
        assert((x + w).last() == w[w.len() - 1]);
        lemma_trim_end_ws_suffix(x, w.drop_last());
    }
}

/// Dropping a final carriage return does not change the trimmed text.
pub proof fn lemma_trim_strip_cr(y: Seq<char>)
    ensures
        trim_end(strip_cr(y)) == trim_end(y),
        trim(strip_cr(y)) == trim(y),
{
    if y.len() > 0 && y.last() == '\r' {
        assert(is_ws('\r'));
    }
}

/// A string of whitespace trims to nothing.
pub proof fn lemma_trim_all_ws(y: Seq<char>)
    requires
        all_ws(y),
    ensures
        trim_end(y) == Seq::<char>::empty(),
        trim(y) == Seq::<char>::empty(),
    decreases y.len(),
{
    if y.len() > 0 {
        assert(y.last() == y[y.len() - 1]);
        lemma_trim_end_ws_suffix(y.drop_last(), seq![y.last()]);
        assert(y.drop_last() + seq![y.last()] =~= y);
        assert(all_ws(y.drop_last())) by {
            assert forall|i: int| 0 <= i < y.drop_last().len() implies is_ws(
                #[trigger] y.drop_last()[i],
            ) by {
                assert(y.drop_last()[i] == y[i]);
            }
        }
        lemma_trim_all_ws(y.drop_last());
    } else {
        assert(trim_end(y) =~= Seq::<char>::empty());
    }
}

/// A string is its trimmed text followed by whitespace; the trimmed text,
/// unless empty, ends in a non-whitespace character.
pub proof fn lemma_trim_end_split(c: Seq<char>)
    ensures
        trim_end(c).len() <= c.len(),
        c == trim_end(c) + c.skip(trim_end(c).len() as int),
        all_ws(c.skip(trim_end(c).len() as int)),
        trim_end(c).len() > 0 ==> !is_ws(trim_end(c).last()),
    decreases c.len(),
{
    if c.len() > 0 && is_ws(c.last()) {
        lemma_trim_end_split(c.drop_last());
        let n = trim_end(c).len() as int;
        let w = c.skip(n);
        let w0 = c.drop_last().skip(n);
        assert(w =~= w0.push(c.last()));
        assert forall|i: int| 0 <= i < w.len() implies is_ws(#[trigger] w[i]) by {
            if i < w0.len() {
                assert(w[i] == w0[i]);
            } else {
                assert(w[i] == c.last());
            }
        }
        assert(trim_end(c) == trim_end(c.drop_last()));
        assert(c =~= c.drop_last().push(c.last()));
        assert(c =~= trim_end(c) + w);
    } else {
        assert(c.skip(c.len() as int) =~= Seq::<char>::empty());
        assert(c =~= c + Seq::<char>::empty());
    }
}

/// Lines read from a stretch of whitespace trim to nothing.
proof fn lemma_lines_acc_blank(s: Seq<char>, start: int, i: int)
    requires
        0 <= start <= i <= s.len(),
        forall|k: int| start <= k < s.len() ==> is_ws(#[trigger] s[k]),
    ensures
        forall|j: int|
            0 <= j < lines_acc(s, start, i).len() ==> trim(#[trigger] lines_acc(s, start, i)[j])
                == Seq::<char>::empty(),
    decreases s.len() - i,
{
    let r = lines_acc(s, start, i);
    if i >= s.len() {
        if start < s.len() {
            let x = s.subrange(start, s.len() as int);
            assert(all_ws(x)) by {
                assert forall|k: int| 0 <= k < x.len() implies is_ws(#[trigger] x[k]) by {
                    assert(x[k] == s[start + k]);
                }
            }
            lemma_trim_all_ws(x);
            assert(r =~= seq![x]);
            assert forall|j: int| 0 <= j < r.len() implies trim(#[trigger] r[j])
                == Seq::<char>::empty() by {
                assert(j == 0);
            }
        } else {
            assert(r.len() == 0);
        }
    } else if s[i] == '\n' {
        lemma_lines_acc_blank(s, i + 1, i + 1);
        let x = s.subrange(start, i);
        assert(all_ws(x)) by {
            assert forall|k: int| 0 <= k < x.len() implies is_ws(#[trigger] x[k]) by {
                assert(x[k] == s[start + k]);
            }
        }
        lemma_trim_all_ws(x);
        lemma_trim_strip_cr(x);
        let rest = lines_acc(s, i + 1, i + 1);
        assert forall|j: int| 0 <= j < r.len() implies trim(#[trigger] r[j])
            == Seq::<char>::empty() by {
            if j == 0 {
                assert(r[0] == strip_cr(x));
            } else {
                assert(r[j] == rest[j - 1]);
            }
        }
    } else {
        lemma_lines_acc_blank(s, start, i + 1);
        assert(r == lines_acc(s, start, i + 1));
    }
}

/// A line without line feeds followed by whitespace: its first line trims
/// like the line itself, and every other line to nothing.
proof fn lemma_lines_first(x: Seq<char>, w: Seq<char>)
    requires
        x.len() > 0,
        !has_char(x, '\n'),
        !is_ws(x.last()),
        all_ws(w),
    ensures
        lines(x + w).len() >= 1,
        trim(lines(x + w)[0]) == trim(x),
        forall|j: int| 1 <= j < lines(x + w).len() ==> trim(#[trigger] lines(x + w)[j])
            == Seq::<char>::empty(),
{
    let s = x + w;
    let xl = x.len() as int;
    assert forall|k: int| 0 <= k < xl implies s[k] != '\n' by {
        assert(s[k] == x[k]);
    }
    lemma_lines_acc_run(s, 0, 0, xl);
    lemma_find_from(s, '\n', xl);
    let j = find_from(s, '\n', xl);
    lemma_lines_acc_run(s, 0, xl, j);
    let y = s.subrange(0, j);
    assert(y =~= x + w.take(j - xl));
    assert(all_ws(w.take(j - xl))) by {
        assert forall|k: int| 0 <= k < w.take(j - xl).len() implies is_ws(
            #[trigger] w.take(j - xl)[k],
        ) by {
            assert(w.take(j - xl)[k] == w[k]);
        }
    }
    lemma_trim_end_ws_suffix(x, w.take(j - xl));
    lemma_trim_strip_cr(y);
    assert(trim_end(x) == x);
    if j < s.len() {
        assert forall|k: int| j + 1 <= k < s.len() implies is_ws(#[trigger] s[k]) by {
            assert(s[k] == w[k - xl]);
        }
        lemma_lines_acc_blank(s, j + 1, j + 1);
        let rest = lines_acc(s, j + 1, j + 1);
        let r = lines_acc(s, 0, j);
        assert(r == seq![strip_cr(y)] + rest);
        assert forall|jj: int| 1 <= jj < lines(s).len() implies trim(#[trigger] lines(s)[jj])
            == Seq::<char>::empty() by {
            assert(lines(s)[jj] == rest[jj - 1]);
        }
        assert(lines(s)[0] == strip_cr(y));
    } else {
        assert(y =~= s);
        assert(lines(s) == seq![s]);
    }
}

/// The lines of a string with trailing whitespace trimmed and one line feed
/// added agree, trimmed, with the string's own lines; the string's further
/// lines trim to nothing.
pub proof fn lemma_lines_trim_end(c: Seq<char>)
    requires
        trim_end(c).len() > 0,
    ensures
        lines(trim_end(c) + seq!['\n']).len() <= lines(c).len(),
        forall|i: int|
            0 <= i < lines(trim_end(c) + seq!['\n']).len() ==> trim(
                #[trigger] lines(trim_end(c) + seq!['\n'])[i],
            ) == trim(lines(c)[i]),
        forall|i: int|
            lines(trim_end(c) + seq!['\n']).len() <= i < lines(c).len() ==> trim(
                #[trigger] lines(c)[i],
            ) == Seq::<char>::empty(),
{
    let t = trim_end(c);
    lemma_trim_end_split(c);
    let w = c.skip(t.len() as int);
    lemma_rfind(t, '\n');
    let k = rfind(t, '\n');
    assert(t.last() == t[t.len() - 1]);
    assert(t.last() != '\n') by {
        assert(is_ws('\n'));
    }
    let t1 = t.take(k + 1);
    let t2 = t.skip(k + 1);
    assert(t2.len() > 0);
    assert(!has_char(t2, '\n')) by {
        if has_char(t2, '\n') {
            let m = choose|m: int| 0 <= m < t2.len() && t2[m] == '\n';
            assert(t2[m] == t[k + 1 + m]);
        }
    }
    assert(t2.last() == t.last());
    lemma_lines_one(t2);
    lemma_trim_strip_cr(t2);
    lemma_lines_first(t2, w);
    if k < 0 {
        assert(t2 =~= t);
        assert(c =~= t2 + w);
    } else {
        assert(t1.last() == '\n');
        assert(t + seq!['\n'] =~= t1 + (t2 + seq!['\n']));
        assert(c =~= t1 + (t2 + w));
        lemma_lines_append(t1, t2 + seq!['\n']);
        lemma_lines_append(t1, t2 + w);
        let n1 = lines(t1).len() as int;
        let a = lines(t + seq!['\n']);
        let l = lines(c);
        assert forall|i: int| 0 <= i < a.len() implies trim(#[trigger] a[i]) == trim(l[i]) by {
            if i < n1 {
                assert(a[i] == lines(t1)[i]);
                assert(l[i] == lines(t1)[i]);
            } else {
                assert(a[i] == strip_cr(t2));
                assert(l[i] == lines(t2 + w)[0]);
            }
        }
        assert forall|i: int| a.len() <= i < l.len() implies trim(#[trigger] l[i])
            == Seq::<char>::empty() by {
            assert(l[i] == lines(t2 + w)[i - n1]);
        }
    }
}

/// A character that does not occur in a string occurs in none of its lines.
proof fn lemma_lines_acc_without(s: Seq<char>, start: int, i: int, ch: char)
    requires
        0 <= start <= i <= s.len(),
        !has_char(s, ch),
    ensures
        forall|j: int|
            0 <= j < lines_acc(s, start, i).len() ==> !has_char(
                #[trigger] lines_acc(s, start, i)[j],
                ch,
            ),
    decreases s.len() - i,
{
    let r = lines_acc(s, start, i);
    if i >= s.len() {
        if start < s.len() {
            let x = s.subrange(start, s.len() as int);
            assert(r =~= seq![x]);
            assert(!has_char(x, ch)) by {
                if has_char(x, ch) {
                    let k = choose|k: int| 0 <= k < x.len() && x[k] == ch;
                    assert(x[k] == s[start + k]);
                }
            }
            assert forall|j: int| 0 <= j < r.len() implies !has_char(#[trigger] r[j], ch) by {
                assert(j == 0);
            }
        }
    } else if s[i] == '\n' {
        lemma_lines_acc_without(s, i + 1, i + 1, ch);
        let x = s.subrange(start, i);
        let y = strip_cr(x);
        assert(!has_char(y, ch)) by {
            if has_char(y, ch) {
                let k = choose|k: int| 0 <= k < y.len() && y[k] == ch;
                assert(y[k] == x[k]);
                assert(x[k] == s[start + k]);
            }
        }
        let rest = lines_acc(s, i + 1, i + 1);
        assert forall|j: int| 0 <= j < r.len() implies !has_char(#[trigger] r[j], ch) by {
            if j == 0 {
                assert(r[0] == y);
            } else {
                assert(r[j] == rest[j - 1]);
            }
        }
    } else {
        lemma_lines_acc_without(s, start, i + 1, ch);
        assert(r == lines_acc(s, start, i + 1));
    }
}

/// A character that does not occur in a string occurs in none of its lines.
pub proof fn lemma_lines_without(s: Seq<char>, ch: char)
    requires
        !has_char(s, ch),
    ensures
        forall|j: int| 0 <= j < lines(s).len() ==> !has_char(#[trigger] lines(s)[j], ch),
{
    lemma_lines_acc_without(s, 0, 0, ch);
}

/// A text that ends in a line feed and holds no carriage return is its
/// lines, each followed by a line feed.
pub proof fn lemma_terminated_lines_of(c: Seq<char>)
    requires
        c.len() == 0 || c.last() == '\n',
        !has_char(c, '\r'),
    ensures
        terminated_lines(lines(c)) == c,
    decreases c.len(),
{
    if c.len() == 0 {
        assert(lines(c) =~= Seq::<Seq<char>>::empty());
        assert(terminated_lines(lines(c)) =~= Seq::<char>::empty());
    } else {
        lemma_find_from(c, '\n', 0);
        let k = find_from(c, '\n', 0);
        assert(c[c.len() - 1] == '\n');
        let x = c.take(k);
        let rest = c.skip(k + 1);
        assert(c =~= (x + seq!['\n']) + rest);
        assert(!has_char(x, '\n')) by {
            if has_char(x, '\n') {
                let q = choose|q: int| 0 <= q < x.len() && x[q] == '\n';
                assert(x[q] == c[q]);
            }
        }
        assert(!has_char(rest, '\r')) by {
            if has_char(rest, '\r') {
                let q = choose|q: int| 0 <= q < rest.len() && rest[q] == '\r';
                assert(rest[q] == c[k + 1 + q]);
            }
        }
        assert(rest.len() == 0 || rest.last() == '\n') by {
            if rest.len() > 0 {
                assert(rest.last() == c.last());
            }
        }
        assert(strip_cr(x) == x) by {
            if x.len() > 0 {
                assert(x.last() == c[k - 1]);
                if x.last() == '\r' {
                    assert(has_char(c, '\r'));
                }
            }
        }
        lemma_lines_one(x);
        lemma_lines_append(x + seq!['\n'], rest);
        lemma_terminated_lines_of(rest);
        lemma_terminated_concat(seq![x], lines(rest));
        assert(seq![x].drop_last() =~= Seq::<Seq<char>>::empty());
        assert(terminated_lines(seq![x].drop_last()) =~= Seq::<char>::empty());
        assert(seq![x].last() == x);
        assert(terminated_lines(seq![x]) =~= x + seq!['\n']);
        assert(lines(c) =~= seq![x] + lines(rest));
    }
}

// ---------------------------------------------------------------------------
// Searching
// ---------------------------------------------------------------------------

/// What `find_from` returns: the first match at or after `from`.
pub proof fn lemma_find_from(s: Seq<char>, c: char, from: int)
    requires
        0 <= from <= s.len(),
    ensures
        from <= find_from(s, c, from) <= s.len(),
        find_from(s, c, from) < s.len() ==> s[find_from(s, c, from)] == c,
        forall|k: int| from <= k < find_from(s, c, from) ==> s[k] != c,
    decreases s.len() - from,
{
    if from < s.len() && s[from] != c {
        lemma_find_from(s, c, from + 1);
    }
}

/// What `rfind` returns: the last match, or -1.
pub proof fn lemma_rfind(s: Seq<char>, c: char)
    ensures
        -1 <= rfind(s, c) < s.len(),
        rfind(s, c) >= 0 ==> s[rfind(s, c)] == c,
        forall|k: int| rfind(s, c) < k < s.len() ==> s[k] != c,
    decreases s.len(),
{
    if s.len() > 0 && s.last() != c {
        lemma_rfind(s.drop_last(), c);
        assert forall|k: int| rfind(s, c) < k < s.len() implies s[k] != c by {
            if k < s.len() - 1 {
                assert(s[k] == s.drop_last()[k]);
            }
        }
    }
}

/// What `find_pat_from` returns: the first occurrence at or after `from`.
pub proof fn lemma_find_pat_from(s: Seq<char>, pat: Seq<char>, from: int)
    requires
        0 <= from <= s.len(),
    ensures
        from <= find_pat_from(s, pat, from) <= s.len(),
        find_pat_from(s, pat, from) < s.len() ==> occurs_at(s, pat, find_pat_from(s, pat, from)),
        forall|k: int| from <= k < find_pat_from(s, pat, from) ==> !occurs_at(s, pat, k),
    decreases s.len() - from,
{
    if from < s.len() && !occurs_at(s, pat, from) {
        lemma_find_pat_from(s, pat, from + 1);
    }
}

/// `has_char` holds exactly when `find_from` from 0 finds something.
pub proof fn lemma_has_char_find(s: Seq<char>, c: char)
    ensures
        has_char(s, c) <==> find_from(s, c, 0) < s.len(),
{
    lemma_find_from(s, c, 0);
}

/// Index of the first `c` in `v` at or after `from` (or `v.len()`).
pub fn find_char_from(v: &[char], c: char, from: usize) -> (r: usize)
    requires
        from <= v@.len(),
    ensures
        r == find_from(v@, c, from as int),
{
    let mut i = from;
    while i < v.len() && v[i] != c
        invariant
            from <= i <= v@.len(),
            find_from(v@, c, from as int) == find_from(v@, c, i as int),
        decreases v@.len() - i,
    {
        i += 1;
    }
    i
}

/// Whether `c` occurs in `v`.
pub fn contains_char(v: &[char], c: char) -> (res: bool)
    ensures
        res == has_char(v@, c),
{
    proof {
        lemma_has_char_find(v@, c);
    }
    find_char_from(v, c, 0) < v.len()
}

/// Index of the last `c` in `v`, if any.
pub fn rfind_char(v: &[char], c: char) -> (r: Option<usize>)
    ensures
        match r {
            Some(k) => k == rfind(v@, c),
            None => rfind(v@, c) == -1,
        },
{
    let mut j = v.len();
    assert(v@.take(j as int) =~= v@);
    while j > 0 && v[j - 1] != c
        invariant
            j <= v@.len(),
            rfind(v@, c) == rfind(v@.take(j as int), c),
        decreases j,
    {
        assert(v@.take(j as int).drop_last() =~= v@.take(j - 1));
        j -= 1;
    }
    if j == 0 {
        None
    } else {
        Some(j - 1)
    }
}

/// Whether `pat` occurs in `v` at index `i`.
pub fn occurs_at_exec(v: &[char], pat: &[char], i: usize) -> (res: bool)
    ensures
        res == occurs_at(v@, pat@, i as int),
{
    let n = v.len();
    if i > n || pat.len() > n - i {
        return false;
    }
    let mut k: usize = 0;
    while k < pat.len()
        invariant
            n == v@.len(),
            i + pat@.len() <= n,
            k <= pat@.len(),
            forall|m: int| 0 <= m < k ==> v@[i + m] == pat@[m],
        decreases pat@.len() - k,
    {
        if v[i + k] != pat[k] {
            assert(v@.subrange(i as int, i + pat@.len())[k as int] != pat@[k as int]);
            return false;
        }
        k += 1;
    }
    assert(v@.subrange(i as int, i + pat@.len()) =~= pat@);
    true
}

/// Index of the first occurrence of `pat` in `v` at or after `from` (or
/// `v.len()`).
pub fn find_pat(v: &[char], pat: &[char], from: usize) -> (r: usize)
    requires
        from <= v@.len(),
    ensures
        r == find_pat_from(v@, pat@, from as int),
{
    let mut i = from;
    while i < v.len() && !occurs_at_exec(v, pat, i)
        invariant
            from <= i <= v@.len(),
            find_pat_from(v@, pat@, from as int) == find_pat_from(v@, pat@, i as int),
        decreases v@.len() - i,
    {
        i += 1;
    }
    i
}

// ---------------------------------------------------------------------------
// Splitting and joining
// ---------------------------------------------------------------------------

/// `str::split(c)`.
pub fn split_on(v: &[char], c: char) -> (res: Vec<Vec<char>>)
    ensures
        views(res@) == split_char(v@, c),
{
    let mut parts: Vec<Vec<char>> = Vec::new();
    let mut cur: Vec<char> = Vec::new();
    let mut i: usize = 0;
    assert(views(parts@).push(cur@) =~= split_char(v@.take(0), c));
    while i < v.len()
        invariant
            i <= v@.len(),
            views(parts@).push(cur@) == split_char(v@.take(i as int), c),
        decreases v@.len() - i,
    {
        assert(v@.take(i + 1).drop_last() =~= v@.take(i as int));
        let ghost before = views(parts@);
        if v[i] == c {
            let done = cur;
            parts.push(done);
            cur = Vec::new();
            assert(views(parts@) =~= before.push(done@));
            assert(views(parts@).push(cur@) =~= before.push(done@).push(Seq::<char>::empty()));
        } else {
            let ghost old_cur = cur@;
            cur.push(v[i]);
            assert(views(parts@).push(cur@) =~= before.push(old_cur).update(
                before.len() as int,
                old_cur.push(v@[i as int]),
            ));
        }
        i += 1;
    }
    assert(v@.take(i as int) =~= v@);
    parts.push(cur);
    assert(views(parts@) =~= views(parts@.drop_last()).push(parts@.last()@));
    parts
}

/// `[String]::join(sep)`.
pub fn join_with(parts: &[Vec<char>], sep: &[char]) -> (res: Vec<char>)
    ensures
        res@ == join(views(parts@), sep@),
{
    let mut res: Vec<char> = Vec::new();
    let mut i: usize = 0;
    while i < parts.len()
        invariant
            i <= parts@.len(),
            res@ == join(views(parts@).take(i as int), sep@),
        decreases parts@.len() - i,
    {
        let ghost before = res@;
        if i > 0 {
            push_all(&mut res, sep);
        }
        push_all(&mut res, parts[i].as_slice());
        assert(views(parts@).take(i + 1).drop_last() =~= views(parts@).take(i as int));
        i += 1;
    }
    assert(views(parts@).take(i as int) =~= views(parts@));
    res
}

/// `str::lines`.
pub fn lines_of(v: &[char]) -> (res: Vec<Vec<char>>)
    ensures
        views(res@) == lines(v@),
{
    let mut res: Vec<Vec<char>> = Vec::new();
    let mut start: usize = 0;
    let mut i: usize = 0;
    assert(views(res@) + lines_acc(v@, 0, 0) =~= lines(v@));
    while i < v.len()
        invariant
            start <= i <= v@.len(),
            views(res@) + lines_acc(v@, start as int, i as int) == lines(v@),
        decreases v@.len() - i,
    {
        let ghost before = views(res@);
        if v[i] == '\n' {
            let mut line = copy_range(v, start, i);
            if line.len() > 0 && line[line.len() - 1] == '\r' {
                line.pop();
            }
            assert(line@ == strip_cr(v@.subrange(start as int, i as int)));
            res.push(line);
            assert(views(res@) =~= before.push(line@));
            assert(before + (seq![line@] + lines_acc(v@, i + 1, i + 1)) =~= before.push(line@)
                + lines_acc(v@, i + 1, i + 1));
            start = i + 1;
        }
        i += 1;
    }
    let ghost before = views(res@);
    if start < v.len() {
        let line = copy_range(v, start, v.len());
        res.push(line);
        assert(views(res@) =~= before + lines_acc(v@, start as int, i as int));
    } else {
        assert(views(res@) =~= before + lines_acc(v@, start as int, i as int));
    }
    res
}


// ---------------------------------------------------------------------------
// Small builders
// ---------------------------------------------------------------------------

/// A vector holding the one character `c`.
pub fn one_char(c: char) -> (res: Vec<char>)
    ensures
        res@ == seq![c],
{
    let mut res: Vec<char> = Vec::new();
    res.push(c);
    assert(res@ =~= seq![c]);
    res
}

/// `a`, then `b`, then `c`, as one `String`.
pub fn concat3(a: &str, b: &[char], c: &str) -> (res: String)
    ensures
        res@ == a@ + b@ + c@,
{
    let mut v = chars_of(a);
    push_all(&mut v, b);
    push_str(&mut v, c);
    string_of(v.as_slice())
}

/// A `String` with the characters of `s`.
pub fn owned(s: &str) -> (res: String)
    ensures
        res@ == s@,
{
    let v = chars_of(s);
    string_of(v.as_slice())
}

/// Whether `s` ends with `pat`.
pub open spec fn ends_with(s: Seq<char>, pat: Seq<char>) -> bool {
    pat.len() <= s.len() && s.skip(s.len() - pat.len()) == pat
}

/// Whether `s` starts with `pat`.
pub open spec fn starts_with(s: Seq<char>, pat: Seq<char>) -> bool {
    pat.len() <= s.len() && s.take(pat.len() as int) == pat
}

/// `str::ends_with`.
pub fn ends_with_exec(v: &[char], pat: &[char]) -> (res: bool)
    ensures
        res == ends_with(v@, pat@),
{
    if pat.len() > v.len() {
        return false;
    }
    let r = occurs_at_exec(v, pat, v.len() - pat.len());
    assert(v@.subrange(v@.len() - pat@.len(), v@.len() as int) =~= v@.skip(
        v@.len() - pat@.len(),
    ));
    r
}

/// `str::starts_with`.
pub fn starts_with_exec(v: &[char], pat: &[char]) -> (res: bool)
    ensures
        res == starts_with(v@, pat@),
{
    let r = occurs_at_exec(v, pat, 0);
    assert(pat@.len() <= v@.len() ==> v@.subrange(0, pat@.len() as int) =~= v@.take(
        pat@.len() as int,
    ));
    r
}

} // verus!
