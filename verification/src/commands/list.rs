//! `git sidecar list`: one row per sidecar, sorted by nickname, in aligned
//! columns.

use vstd::prelude::*;

use crate::config::{Config, SidecarView};
use crate::paths::{
    model_path, native_path, norm_comps, norm_parts, path_is_abs, path_prefix, path_prefix_exec,
    render, render_parts, to_model, to_native,
};
use crate::exclude::str_views;
use crate::order::{lex_lt, sorted_order, sorted_order_of};
use crate::text::{chars_of, join, join_with, owned, push_all, string_of, views};

verus! {

/// `standalone` or `unified`.
pub open spec fn layout_name(standalone: bool) -> Seq<char> {
    if standalone {
        "standalone"@
    } else {
        "unified"@
    }
}

/// The listing columns of one sidecar: nickname, repo, mapping, layout.
pub open spec fn row_of(e: (Seq<char>, SidecarView)) -> Seq<Seq<char>> {
    seq![e.0, e.1.repo, e.1.mapping, layout_name(e.1.standalone)]
}

/// The views of rows of strings.
pub open spec fn rows_view(rows: Seq<Vec<String>>) -> Seq<Seq<Seq<char>>> {
    Seq::new(rows.len(), |i: int| str_views(rows[i]@))
}

/// The nicknames of a config's entries.
pub open spec fn names_of(es: Seq<(Seq<char>, SidecarView)>) -> Seq<Seq<char>> {
    Seq::new(es.len(), |i: int| es[i].0)
}

/// The listing columns of one sidecar.
fn row_for(e: &(String, crate::config::Sidecar)) -> (row: Vec<String>)
    ensures
        str_views(row@) == row_of((e.0@, e.1@)),
{
    let mut row: Vec<String> = Vec::new();
    row.push(owned(e.0.as_str()));
    row.push(owned(e.1.repo.as_str()));
    row.push(owned(e.1.mapping.as_str()));
    row.push(
        if e.1.standalone {
            owned("standalone")
        } else {
            owned("unified")
        },
    );
    assert(str_views(row@) =~= row_of((e.0@, e.1@)));
    row
}

/// The nicknames of a config's entries, in order.
fn names_vec(config: &Config) -> (res: Vec<Vec<char>>)
    ensures
        views(res@) == names_of(config@),
{
    let mut names: Vec<Vec<char>> = Vec::new();
    let mut i: usize = 0;
    while i < config.sidecars.len()
        invariant
            i <= config@.len(),
            config@.len() == config.sidecars@.len(),
            views(names@) == names_of(config@).take(i as int),
        decreases config@.len() - i,
    {
        let n = chars_of(config.sidecars[i].0.as_str());
        let ghost before = names@;
        names.push(n);
        proof {
            crate::text::lemma_views_push(before, n);
        }
        assert(views(names@) =~= names_of(config@).take(i + 1));
        i += 1;
    }
    assert(names_of(config@).take(i as int) =~= names_of(config@));
    names
}

/// The rows of the entries at the given positions, in that order.
fn rows_in_order(config: &Config, order: &Vec<usize>) -> (rows: Vec<Vec<String>>)
    requires
        forall|i: int| 0 <= i < order@.len() ==> order@[i] < config@.len(),
    ensures
        rows@.len() == order@.len(),
        forall|m: int|
            0 <= m < order@.len() ==> #[trigger] rows_view(rows@)[m] == row_of(
                config@[order@[m] as int],
            ),
{
    let mut rows: Vec<Vec<String>> = Vec::new();
    let mut r: usize = 0;
    while r < order.len()
        invariant
            r <= order@.len(),
            forall|i: int| 0 <= i < order@.len() ==> order@[i] < config@.len(),
            config@.len() == config.sidecars@.len(),
            rows@.len() == r,
            forall|m: int|
                0 <= m < r ==> #[trigger] rows_view(rows@)[m] == row_of(
                    config@[order@[m] as int],
                ),
        decreases order@.len() - r,
    {
        let k = order[r];
        let row = row_for(&config.sidecars[k]);
        assert(config@[k as int] == (config.sidecars@[k as int].0@, config.sidecars@[k as int].1@));
        let ghost before = rows@;
        rows.push(row);
        proof {
            lemma_rows_view_push(before, row);
        }
        r += 1;
    }
    rows
}

/// `rv` lists the row of every entry exactly once, in increasing order of
/// nickname: it is the entries' rows taken in a sorted order of the
/// nicknames.
pub open spec fn listing_of(es: Seq<(Seq<char>, SidecarView)>, rv: Seq<Seq<Seq<char>>>) -> bool {
    exists|order: Seq<usize>|
        #[trigger] sorted_order_of(names_of(es), order) && rv.len() == order.len() && forall|m: int|
            0 <= m < order.len() ==> #[trigger] rv[m] == row_of(es[order[m] as int])
}

/// Distinct nicknames make distinct keys.
proof fn lemma_distinct_names(es: Seq<(Seq<char>, SidecarView)>)
    requires
        crate::config::distinct_names(es),
    ensures
        crate::order::distinct_keys(names_of(es)),
{
}

/// The views of rows after a push.
proof fn lemma_rows_view_push(rows: Seq<Vec<String>>, row: Vec<String>)
    ensures
        rows_view(rows.push(row)) == rows_view(rows).push(str_views(row@)),
{
    assert(rows_view(rows.push(row)) =~= rows_view(rows).push(str_views(row@)));
}

/// The listing of a config's entries (there is only one, see
/// `lemma_listing_unique`).
pub open spec fn sorted_rows_of(es: Seq<(Seq<char>, SidecarView)>) -> Seq<Seq<Seq<char>>> {
    choose|rv: Seq<Seq<Seq<char>>>| listing_of(es, rv)
}

/// Entries with distinct nicknames have exactly one listing.
pub proof fn lemma_listing_unique(es: Seq<(Seq<char>, SidecarView)>, rv: Seq<Seq<Seq<char>>>)
    requires
        crate::config::distinct_names(es),
        listing_of(es, rv),
    ensures
        rv == sorted_rows_of(es),
{
    let rv2 = sorted_rows_of(es);
    assert(listing_of(es, rv2));
    let o1 = choose|o: Seq<usize>|
        #[trigger] sorted_order_of(names_of(es), o) && rv.len() == o.len() && forall|m: int|
            0 <= m < o.len() ==> #[trigger] rv[m] == row_of(es[o[m] as int]);
    let o2 = choose|o: Seq<usize>|
        #[trigger] sorted_order_of(names_of(es), o) && rv2.len() == o.len() && forall|m: int|
            0 <= m < o.len() ==> #[trigger] rv2[m] == row_of(es[o[m] as int]);
    lemma_distinct_names(es);
    crate::order::lemma_sorted_order_unique(names_of(es), o1, o2);
    assert(rv =~= rv2);
}

/// The listing rows of a config, one per sidecar, in increasing order of
/// nickname.
pub fn sorted_sidecar_rows(config: &Config) -> (res: Vec<Vec<String>>)
    requires
        config.well_formed(),
    ensures
        listing_of(config@, rows_view(res@)),
        rows_view(res@) == sorted_rows_of(config@),
{
    let names = names_vec(config);
    proof {
        lemma_distinct_names(config@);
    }
    let order = sorted_order(&names);
    let rows = rows_in_order(config, &order);
    assert(sorted_order_of(names_of(config@), order@));
    proof {
        lemma_listing_unique(config@, rows_view(rows@));
    }
    rows
}

/// `str::len`: the number of bytes of the UTF-8 encoding.
pub open spec fn byte_len(s: Seq<char>) -> nat {
    (vstd::utf8::encode_utf8(s).len() as usize) as nat
}

/// The largest byte length in column `c` of the rows (of those that have
/// that column).
pub open spec fn col_width(rows: Seq<Seq<Seq<char>>>, c: int) -> nat
    decreases rows.len(),
{
    if rows.len() == 0 {
        0
    } else {
        let w = col_width(rows.drop_last(), c);
        let b = if 0 <= c < rows.last().len() {
            byte_len(rows.last()[c])
        } else {
            0
        };
        if b > w {
            b
        } else {
            w
        }
    }
}

/// `format!("{s:<w$}")`: spaces added up to `w` characters.
pub open spec fn pad(s: Seq<char>, w: nat) -> Seq<char> {
    if s.len() < w {
        s + Seq::new((w - s.len()) as nat, |i: int| ' ')
    } else {
        s
    }
}

/// One formatted row: every column but the last padded to its width, the
/// columns separated by three spaces.
pub open spec fn format_row(row: Seq<Seq<char>>, rows: Seq<Seq<Seq<char>>>) -> Seq<char> {
    join(
        Seq::new(
            row.len(),
            |c: int|
                if c < row.len() - 1 {
                    pad(row[c], col_width(rows, c))
                } else {
                    row[c]
                },
        ),
        "   "@,
    )
}

/// The width of column `c`: the largest byte length in it.
fn column_width(rows: &Vec<Vec<String>>, c: usize) -> (res: usize)
    ensures
        res == col_width(rows_view(rows@), c as int),
{
    let mut w: usize = 0;
    let mut r: usize = 0;
    while r < rows.len()
        invariant
            r <= rows@.len(),
            w == col_width(rows_view(rows@).take(r as int), c as int),
        decreases rows@.len() - r,
    {
        assert(rows_view(rows@).take(r + 1).drop_last() =~= rows_view(rows@).take(r as int));
        assert(rows_view(rows@).take(r + 1).last() == str_views(rows@[r as int]@));
        if c < rows[r].len() {
            assert(rows_view(rows@).take(r + 1).last()[c as int] == rows@[r as int]@[c as int]@);
            let b = rows[r][c].as_str().len();
            assert(b == byte_len(rows@[r as int]@[c as int]@));
            if b > w {
                w = b;
            }
        }
        r += 1;
    }
    assert(rows_view(rows@).take(r as int) =~= rows_view(rows@));
    w
}

/// `s` padded with spaces to `w` characters.
fn pad_exec(s: &str, w: usize, out: &mut Vec<char>)
    ensures
        final(out)@ == old(out)@ + pad(s@, w as nat),
{
    let v = chars_of(s);
    push_all(out, v.as_slice());
    if v.len() < w {
        let ghost base = out@;
        let mut k = v.len();
        while k < w
            invariant
                v@.len() <= k <= w,
                out@ == base + Seq::new((k - v@.len()) as nat, |i: int| ' '),
            decreases w - k,
        {
            out.push(' ');
            assert(out@ =~= base + Seq::new((k + 1 - v@.len()) as nat, |i: int| ' '));
            k += 1;
        }
    } else {
        assert(out@ =~= old(out)@ + pad(s@, w as nat));
    }
}

/// Formats rows into aligned columns: each column but the last is padded to
/// the longest entry in it, and columns are separated by three spaces.
pub fn format_sidecar_rows(rows: &Vec<Vec<String>>) -> (res: Vec<String>)
    ensures
        res@.len() == rows@.len(),
        forall|r: int|
            0 <= r < rows@.len() ==> #[trigger] res@[r]@ == format_row(
                rows_view(rows@)[r],
                rows_view(rows@),
            ),
{
    let mut out: Vec<String> = Vec::new();
    let mut r: usize = 0;
    while r < rows.len()
        invariant
            r <= rows@.len(),
            out@.len() == r,
            forall|q: int|
                0 <= q < r ==> #[trigger] out@[q]@ == format_row(
                    rows_view(rows@)[q],
                    rows_view(rows@),
                ),
        decreases rows@.len() - r,
    {
        let ncols = rows[r].len();
        let ghost row = rows_view(rows@)[r as int];
        assert(row == str_views(rows@[r as int]@));
        let ghost cells = Seq::new(
            ncols as nat,
            |k: int|
                if k < ncols - 1 {
                    pad(row[k], col_width(rows_view(rows@), k))
                } else {
                    row[k]
                },
        );
        let mut line: Vec<char> = Vec::new();
        let mut k: usize = 0;
        while k < ncols
            invariant
                k <= ncols,
                r < rows@.len(),
                row == rows_view(rows@)[r as int],
                ncols == row.len(),
                cells.len() == ncols,
                forall|m: int|
                    0 <= m < ncols ==> cells[m] == (if m < ncols - 1 {
                        pad(row[m], col_width(rows_view(rows@), m))
                    } else {
                        row[m]
                    }),
                line@ == join(cells.take(k as int), "   "@),
            decreases ncols - k,
        {
            if k > 0 {
                let sep = chars_of("   ");
                push_all(&mut line, sep.as_slice());
            }
            assert(row[k as int] == rows@[r as int]@[k as int]@);
            if k + 1 < ncols {
                let w = column_width(rows, k);
                pad_exec(rows[r][k].as_str(), w, &mut line);
            } else {
                let cell = chars_of(rows[r][k].as_str());
                push_all(&mut line, cell.as_slice());
            }
            assert(cells.take(k + 1).drop_last() =~= cells.take(k as int));
            if k == 0 {
                assert(line@ =~= join(cells.take(1), "   "@));
            } else {
                assert(line@ =~= join(cells.take(k + 1), "   "@));
            }
            k += 1;
        }
        assert(cells.take(k as int) =~= cells);
        assert(cells =~= Seq::new(
            row.len(),
            |c: int|
                if c < row.len() - 1 {
                    pad(row[c], col_width(rows_view(rows@), c))
                } else {
                    row[c]
                },
        ));
        if ncols == 0 {
            assert(line@ =~= format_row(row, rows_view(rows@)));
        }
        let s = string_of(line.as_slice());
        let ghost before = out@;
        out.push(s);
        assert forall|q: int| 0 <= q < r + 1 implies #[trigger] out@[q]@ == format_row(
            rows_view(rows@)[q],
            rows_view(rows@),
        ) by {
            if q < r {
                assert(out@[q] == before[q]);
            }
        }
        r += 1;
    }
    out
}

// ---------------------------------------------------------------------------
// `list --global`
// ---------------------------------------------------------------------------

/// The formatted lines of rows.
pub open spec fn formatted_lines(rv: Seq<Seq<Seq<char>>>) -> Seq<Seq<char>> {
    Seq::new(rv.len(), |r: int| format_row(rv[r], rv))
}

/// The header of a config file's group: the file's directory relative to
/// `root`, or the whole path when the file does not lie under `root` (on
/// Windows, `\` read as `/` and the relative directory written with `\`).
pub open spec fn global_label_of(root: Seq<char>, path: Seq<char>, windows: bool) -> Seq<char> {
    let mp = model_path(path, windows);
    let mr = model_path(root, windows);
    let pa = path_is_abs(mp);
    let pc = norm_comps(mp);
    let ra = path_is_abs(mr);
    let rc = norm_comps(mr);
    if pc.len() > 0 && path_prefix(pa, pc.drop_last(), ra, rc) {
        native_path(render(pa && !ra, pc.drop_last().skip(rc.len() as int)), windows)
    } else {
        path
    }
}

/// The config files found, by path, each with its entries when it could be
/// read.
pub open spec fn files_view(files: Seq<(String, Option<Config>)>) -> Seq<
    (Seq<char>, Option<Seq<(Seq<char>, SidecarView)>>),
> {
    Seq::new(
        files.len(),
        |i: int|
            (
                files[i].0@,
                match files[i].1 {
                    Some(c) => Some(c@),
                    None => None,
                },
            ),
    )
}

/// Two spaces before each line.
pub open spec fn indented(ls: Seq<Seq<char>>) -> Seq<Seq<char>> {
    Seq::new(ls.len(), |i: int| seq![' ', ' '] + ls[i])
}

/// The groups printed for the files: for each readable file in order, a
/// blank line unless it is the first group, its header and a colon, then
/// its rows indented by two spaces.
pub open spec fn global_groups(
    root: Seq<char>,
    files: Seq<(Seq<char>, Option<Seq<(Seq<char>, SidecarView)>>)>,
    windows: bool,
) -> Seq<Seq<char>>
    decreases files.len(),
{
    if files.len() == 0 {
        Seq::empty()
    } else {
        let prev = global_groups(root, files.drop_last(), windows);
        match files.last().1 {
            None => prev,
            Some(es) => prev + (if prev.len() > 0 {
                seq![Seq::<char>::empty()]
            } else {
                Seq::empty()
            }) + seq![global_label_of(root, files.last().0, windows) + seq![':']] + indented(
                formatted_lines(sorted_rows_of(es)),
            ),
        }
    }
}

/// What `list --global` prints for the config files found under `root`.
pub open spec fn global_lines_of(
    root: Seq<char>,
    files: Seq<(Seq<char>, Option<Seq<(Seq<char>, SidecarView)>>)>,
    windows: bool,
) -> Seq<Seq<char>> {
    if files.len() == 0 {
        seq!["no sidecars configured under "@ + root]
    } else {
        global_groups(root, files, windows)
    }
}

/// The header of a config file's group.
pub fn global_label(root: &str, path: &str, windows: bool) -> (res: String)
    ensures
        res@ == global_label_of(root@, path@, windows),
{
    let pv = to_model(path, windows);
    let rv = to_model(root, windows);
    let (pa, pc) = norm_parts(pv.as_slice());
    let (ra, rc) = norm_parts(rv.as_slice());
    if pc.len() == 0 {
        return owned(path);
    }
    let mut dir: Vec<Vec<char>> = Vec::new();
    let mut i: usize = 0;
    while i < pc.len() - 1
        invariant
            pc@.len() > 0,
            i < pc@.len(),
            views(dir@) == views(pc@).take(i as int),
        decreases pc@.len() - i,
    {
        let c = crate::text::copy_range(pc[i].as_slice(), 0, pc[i].len());
        assert(c@ =~= pc@[i as int]@);
        let ghost before = dir@;
        dir.push(c);
        proof {
            crate::text::lemma_views_push(before, c);
        }
        assert(views(dir@) =~= views(pc@).take(i + 1));
        i += 1;
    }
    assert(views(dir@) =~= views(pc@).drop_last());
    if !path_prefix_exec(pa, dir.as_slice(), ra, rc.as_slice()) {
        return owned(path);
    }
    let mut rest: Vec<Vec<char>> = Vec::new();
    let mut k: usize = rc.len();
    while k < dir.len()
        invariant
            rc@.len() <= k <= dir@.len(),
            views(rest@) == views(dir@).subrange(rc@.len() as int, k as int),
        decreases dir@.len() - k,
    {
        let c = crate::text::copy_range(dir[k].as_slice(), 0, dir[k].len());
        assert(c@ =~= dir@[k as int]@);
        let ghost before = rest@;
        rest.push(c);
        proof {
            crate::text::lemma_views_push(before, c);
        }
        assert(views(rest@) =~= views(dir@).subrange(rc@.len() as int, k + 1));
        k += 1;
    }
    assert(views(rest@) =~= views(dir@).skip(rc@.len() as int));
    let r = render_parts(pa && !ra, rest.as_slice());
    let n = to_native(r.as_slice(), windows);
    string_of(n.as_slice())
}

/// The lines `list --global` prints for the config files found under `root`,
/// in order; `None` marks a file that could not be read (skipped, with its
/// warning printed by the caller).
pub fn global_listing(root: &str, files: &Vec<(String, Option<Config>)>, windows: bool) -> (res:
    Vec<String>)
    requires
        forall|i: int|
            0 <= i < files@.len() && files@[i].1 is Some ==> (#[trigger] files@[i]).1->0.well_formed(),
    ensures
        str_views(res@) == global_lines_of(root@, files_view(files@), windows),
{
    let mut out: Vec<String> = Vec::new();
    if files.len() == 0 {
        let mut msg = chars_of("no sidecars configured under ");
        crate::text::push_str(&mut msg, root);
        out.push(string_of(msg.as_slice()));
        assert(str_views(out@) =~= seq!["no sidecars configured under "@ + root@]);
        return out;
    }
    let ghost fv = files_view(files@);
    let mut i: usize = 0;
    assert(fv.take(0) =~= Seq::<(Seq<char>, Option<Seq<(Seq<char>, SidecarView)>>)>::empty());
    while i < files.len()
        invariant
            i <= files@.len(),
            fv == files_view(files@),
            forall|j: int|
                0 <= j < files@.len() && files@[j].1 is Some ==> (#[trigger] files@[j]).1->0.well_formed(),
            str_views(out@) == global_groups(root@, fv.take(i as int), windows),
        decreases files@.len() - i,
    {
        assert(fv.take(i + 1).drop_last() =~= fv.take(i as int));
        assert(fv.take(i + 1).last() == fv[i as int]);
        match &files[i].1 {
            None => {},
            Some(config) => {
                let ghost prev = str_views(out@);
                if out.len() > 0 {
                    out.push(owned(""));
                    assert(""@ =~= Seq::<char>::empty()) by {
                        reveal_strlit("");
                    }
                }
                let ghost with_blank = str_views(out@);
                assert(with_blank =~= prev + (if prev.len() > 0 {
                    seq![Seq::<char>::empty()]
                } else {
                    Seq::<Seq<char>>::empty()
                })) by {
                    if prev.len() > 0 {
                        assert(str_views(out@) =~= prev.push(Seq::<char>::empty()));
                    }
                }
                let label = global_label(root, files[i].0.as_str(), windows);
                let mut head = chars_of(label.as_str());
                head.push(':');
                assert(head@ == global_label_of(root@, files@[i as int].0@, windows) + seq![':']);
                out.push(string_of(head.as_slice()));
                let ghost with_head = str_views(out@);
                assert(with_head =~= with_blank.push(
                    global_label_of(root@, files@[i as int].0@, windows) + seq![':'],
                ));
                let rows = sorted_sidecar_rows(config);
                let lines = format_sidecar_rows(&rows);
                assert(str_views(lines@) =~= formatted_lines(sorted_rows_of(config@)));
                let mut k: usize = 0;
                while k < lines.len()
                    invariant
                        k <= lines@.len(),
                        str_views(lines@) == formatted_lines(sorted_rows_of(config@)),
                        str_views(out@) == with_head + indented(str_views(lines@)).take(k as int),
                    decreases lines@.len() - k,
                {
                    let mut l = chars_of("  ");
                    crate::text::push_str(&mut l, lines[k].as_str());
                    assert("  "@ =~= seq![' ', ' ']) by {
                        reveal_strlit("  ");
                    }
                    assert(l@ == indented(str_views(lines@))[k as int]);
                    let ghost before = str_views(out@);
                    let sl = string_of(l.as_slice());
                    out.push(sl);
                    assert(str_views(out@) =~= before.push(sl@));
                    assert(str_views(out@) =~= with_head + indented(str_views(lines@)).take(k + 1));
                    k += 1;
                }
                assert(indented(str_views(lines@)).take(k as int) =~= indented(str_views(lines@)));
                assert(fv[i as int].1 == Some(config@));
                assert(fv[i as int].0 == files@[i as int].0@);
            },
        }
        i += 1;
    }
    assert(fv.take(i as int) =~= fv);
    out
}

} // verus!
