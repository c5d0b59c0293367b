use vstd::prelude::*;

use pulldown_cmark::{Event, Options, Parser, Tag, TagEnd};

use crate::text::{
    chars_of, join_lines, line_bounds, lines_at, lines_of, pieces, push_range, segments,
    string_of, trim, trim_bounds,
};

verus! {

/// A 1-based line and column in a document.
#[derive(Debug, Clone, Copy, PartialEq, Eq, Structural)]
pub struct Position {
    pub line: usize,
    pub column: usize,
}

/// The inclusive line range of a table in a document.
#[derive(Debug, Clone, Copy, PartialEq, Eq, Structural)]
pub struct Span {
    pub start: Position,
    pub end: Position,
}

/// A table found in a document: its rows of cells, where it starts, and its span.
#[derive(Debug, Clone)]
pub struct TableInfo {
    pub table: Vec<Vec<String>>,
    pub position: Position,
    pub span: Span,
}

/// A row as a sequence of cell texts.
pub open spec fn row_view(r: Vec<String>) -> Seq<Seq<char>> {
    r@.map_values(|c: String| c@)
}

/// A table as rows of cell texts.
pub open spec fn table_view(t: Vec<Vec<String>>) -> Seq<Seq<Seq<char>>> {
    t@.map_values(|r: Vec<String>| row_view(r))
}

/// A table-like line: its trimmed text starts and ends with `|` (a lone `|`
/// included).
pub open spec fn table_like(l: Seq<char>) -> bool {
    let t = trim(l);
    t.len() > 0 && t[0] == '|' && t.last() == '|'
}

/// Whether the line held in `s[lo..hi]` is table-like.
fn line_is_table_like(s: &Vec<char>, lo: usize, hi: usize) -> (r: bool)
    requires
        lo <= hi <= s@.len(),
    ensures
        r == table_like(s@.subrange(lo as int, hi as int)),
{
    let (a, b) = trim_bounds(s, lo, hi);
    a < b && s[a] == '|' && s[b - 1] == '|'
}

/// The text `s[lo..hi]` as a string.
fn slice_string(s: &Vec<char>, lo: usize, hi: usize) -> (r: String)
    requires
        lo <= hi <= s@.len(),
    ensures
        r@ == s@.subrange(lo as int, hi as int),
{
    let mut v: Vec<char> = Vec::new();
    push_range(&mut v, s, lo, hi);
    string_of(&v)
}

/// `t` without one leading `|` and one trailing `|`, each where present.
pub open spec fn strip_bars(t: Seq<char>) -> Seq<char> {
    let u = if t.len() > 0 && t[0] == '|' {
        t.drop_first()
    } else {
        t
    };
    if u.len() > 0 && u.last() == '|' {
        u.drop_last()
    } else {
        u
    }
}

/// The cells of a table row: the trimmed line without its outer bars, split
/// at each `|`, each piece trimmed.
pub open spec fn row_cells(l: Seq<char>) -> Seq<Seq<char>> {
    pieces(strip_bars(trim(l)), '|').map_values(|c: Seq<char>| trim(c))
}

/// The cells of the row held in `s[lo..hi]`.
fn cells_in(s: &Vec<char>, lo: usize, hi: usize) -> (r: Vec<String>)
    requires
        lo <= hi <= s@.len(),
    ensures
        row_view(r) == row_cells(s@.subrange(lo as int, hi as int)),
{
    let (mut a, mut b) = trim_bounds(s, lo, hi);
    let ghost t = s@.subrange(a as int, b as int);
    if a < b && s[a] == '|' {
        assert(s@.subrange(a + 1, b as int) =~= t.drop_first());
        a = a + 1;
    }
    let ghost u = s@.subrange(a as int, b as int);
    if a < b && s[b - 1] == '|' {
        assert(s@.subrange(a as int, b - 1) =~= u.drop_last());
        b = b - 1;
    }
    let ghost body = s@.subrange(a as int, b as int);
    assert(body == strip_bars(t));
    let mut r: Vec<String> = Vec::new();
    let mut start: usize = a;
    let mut i: usize = a;
    assert(s@.subrange(a as int, a as int) =~= Seq::<char>::empty());
    while i < b
        invariant
            a <= start <= i <= b <= s@.len(),
            pieces(s@.subrange(a as int, i as int), '|').len() == r@.len() + 1,
            pieces(s@.subrange(a as int, i as int), '|').last() == s@.subrange(
                start as int,
                i as int,
            ),
            forall|k: int|
                0 <= k < r@.len() ==> (#[trigger] r@[k])@ == trim(
                    pieces(s@.subrange(a as int, i as int), '|')[k],
                ),
        decreases b - i,
    {
        let ghost prev = pieces(s@.subrange(a as int, i as int), '|');
        let ghost old_r = r@;
        assert(s@.subrange(a as int, i + 1).drop_last() =~= s@.subrange(a as int, i as int));
        assert(s@.subrange(a as int, i + 1).last() == s@[i as int]);
        if s[i] == '|' {
            assert(pieces(s@.subrange(a as int, i + 1), '|') == prev.push(Seq::<char>::empty()));
            let (c0, c1) = trim_bounds(s, start, i);
            r.push(slice_string(s, c0, c1));
            start = i + 1;
            assert(s@.subrange(start as int, i + 1) =~= Seq::<char>::empty());
        } else {
            assert(pieces(s@.subrange(a as int, i + 1), '|') == prev.update(
                prev.len() - 1,
                prev.last().push(s@[i as int]),
            ));
            assert(s@.subrange(start as int, i + 1) =~= s@.subrange(start as int, i as int).push(
                s@[i as int],
            ));
        }
        i = i + 1;
        proof {
            let cur = pieces(s@.subrange(a as int, i as int), '|');
            assert forall|k: int| 0 <= k < r@.len() implies (#[trigger] r@[k])@ == trim(
                cur[k],
            ) by {
                if k < old_r.len() {
                    assert(r@[k] == old_r[k]);
                }
                assert(cur[k] == prev[k]);
            }
        }
    }
    let (c0, c1) = trim_bounds(s, start, b);
    r.push(slice_string(s, c0, c1));
    assert(s@.subrange(a as int, i as int) == body);
    assert(row_view(r) =~= row_cells(s@.subrange(lo as int, hi as int)));
    r
}

/// The cells of a table row: the line is trimmed, one leading and one trailing
/// `|` are dropped where present, and the rest is split at each `|` into
/// trimmed cells.
pub fn parse_table_row(line: &str) -> (r: Vec<String>)
    ensures
        row_view(r) == row_cells(line@),
{
    let s = chars_of(line);
    assert(s@.subrange(0, s@.len() as int) =~= s@);
    cells_in(&s, 0, s.len())
}

/// The span `(run, i)` of lines `run..i` when it holds at least two rows.
pub open spec fn close_run(run: int, i: int) -> Seq<(int, int)> {
    if i - run >= 2 {
        seq![(run, i)]
    } else {
        Seq::empty()
    }
}

/// The tables among `ls[i..]`, as 0-based half-open line ranges, where the
/// lines `run..i` are table-like and still open.
pub open spec fn spans_from(ls: Seq<Seq<char>>, i: int, run: int) -> Seq<(int, int)>
    decreases ls.len() - i,
{
    if i >= ls.len() {
        close_run(run, i)
    } else if table_like(ls[i]) {
        spans_from(ls, i + 1, run)
    } else {
        close_run(run, i) + spans_from(ls, i + 1, i + 1)
    }
}

/// The tables of the lines `ls`: each maximal run of at least two table-like
/// lines, as a 0-based half-open line range.
pub open spec fn table_spans(ls: Seq<Seq<char>>) -> Seq<(int, int)> {
    spans_from(ls, 0, 0)
}

/// The rows of the table held in lines `a..b`.
pub open spec fn table_rows(ls: Seq<Seq<char>>, a: int, b: int) -> Seq<Seq<Seq<char>>> {
    Seq::new((b - a) as nat, |j: int| row_cells(ls[a + j]))
}

/// `info` describes the table held in lines `sp.0..sp.1` of `ls`.
pub open spec fn describes(info: TableInfo, ls: Seq<Seq<char>>, sp: (int, int)) -> bool {
    &&& span_of(info.span, ls, sp)
    &&& info.position == info.span.start
    &&& table_view(info.table) == table_rows(ls, sp.0, sp.1)
}

/// `span` gives the lines `sp.0..sp.1` of `ls` as 1-based inclusive lines;
/// its end column is the character count of the last line.
pub open spec fn span_of(span: Span, ls: Seq<Seq<char>>, sp: (int, int)) -> bool {
    &&& span.start.line == sp.0 + 1
    &&& span.start.column == 1
    &&& span.end.line == sp.1
    &&& span.end.column == ls[sp.1 - 1].len()
}

/// Spans that lie in `lo..hi`, each of at least two lines, in ascending order
/// with at least one line between two of them.
pub open spec fn well_spaced(sp: Seq<(int, int)>, lo: int, hi: int) -> bool {
    &&& forall|k: int| 0 <= k < sp.len() ==> lo <= (#[trigger] sp[k]).0 && sp[k].0 + 2 <= sp[k].1 <= hi
    &&& forall|k: int, l: int| 0 <= k < l < sp.len() ==> (#[trigger] sp[k]).1 < (#[trigger] sp[l]).0
}

proof fn lemma_spans_from_spaced(ls: Seq<Seq<char>>, i: int, run: int)
    requires
        0 <= run <= i,
        i <= ls.len() + 1,
    ensures
        well_spaced(spans_from(ls, i, run), run, if i <= ls.len() { ls.len() as int } else { i }),
    decreases ls.len() - i,
{
    if i >= ls.len() {
    } else if table_like(ls[i]) {
        lemma_spans_from_spaced(ls, i + 1, run);
    } else {
        lemma_spans_from_spaced(ls, i + 1, i + 1);
        let c = close_run(run, i);
        let rest = spans_from(ls, i + 1, i + 1);
        let all = c + rest;
        assert forall|k: int, l: int| 0 <= k < l < all.len() implies (#[trigger] all[k]).1 < (
        #[trigger] all[l]).0 by {
            if k < c.len() {
                assert(all[l] == rest[l - c.len()]);
            } else {
                assert(all[k] == rest[k - c.len()]);
                assert(all[l] == rest[l - c.len()]);
            }
        }
        assert forall|k: int| 0 <= k < all.len() implies run <= (#[trigger] all[k]).0 && all[k].0
            + 2 <= all[k].1 <= ls.len() by {
            if k >= c.len() {
                assert(all[k] == rest[k - c.len()]);
            }
        }
    }
}

/// Tables found in one document lie in its lines, each spans at least two
/// lines, and they come in ascending order without overlapping: each ends
/// before the next begins, with a line between them.
pub proof fn lemma_table_spans_disjoint(s: Seq<char>)
    ensures
        well_spaced(table_spans(lines_of(s)), 0, lines_of(s).len() as int),
{
    lemma_spans_from_spaced(lines_of(s), 0, 0);
}

/// The table of `ls[run..i]`, found in `s`, described by its rows and span.
fn close_table(
    s: &Vec<char>,
    bounds: &Vec<(usize, usize)>,
    rows: Vec<Vec<String>>,
    run: usize,
    i: usize,
) -> (r: TableInfo)
    requires
        lines_at(s@, bounds@),
        run < i <= bounds@.len(),
        table_view(rows) == table_rows(lines_of(s@), run as int, i as int),
    ensures
        describes(r, lines_of(s@), (run as int, i as int)),
{
    let (l0, l1) = bounds[i - 1];
    assert(s@.subrange(l0 as int, l1 as int) == lines_of(s@)[i - 1]);
    let start = Position { line: run + 1, column: 1 };
    TableInfo { table: rows, position: start, span: Span { start, end: Position { line: i, column: l1 - l0 } } }
}

/// The tables of the document `s`, whose lines lie at `bounds`.
fn tables_in(s: &Vec<char>, bounds: &Vec<(usize, usize)>) -> (r: Vec<TableInfo>)
    requires
        lines_at(s@, bounds@),
    ensures
        r@.len() == table_spans(lines_of(s@)).len(),
        forall|k: int|
            0 <= k < r@.len() ==> describes(#[trigger] r@[k], lines_of(s@), table_spans(lines_of(s@))[k]),
{
    let ghost ls = lines_of(s@);
    let mut r: Vec<TableInfo> = Vec::new();
    let mut rows: Vec<Vec<String>> = Vec::new();
    let mut run: usize = 0;
    let mut i: usize = 0;
    while i < bounds.len()
        invariant
            run <= i <= bounds@.len(),
            ls == lines_of(s@),
            lines_at(s@, bounds@),
            table_view(rows) == table_rows(ls, run as int, i as int),
            r@.len() + spans_from(ls, i as int, run as int).len() == table_spans(ls).len(),
            forall|k: int| 0 <= k < r@.len() ==> describes(#[trigger] r@[k], ls, table_spans(ls)[k]),
            forall|k: int|
                0 <= k < spans_from(ls, i as int, run as int).len() ==> table_spans(ls)[r@.len() + k]
                    == #[trigger] spans_from(ls, i as int, run as int)[k],
        decreases bounds@.len() - i,
    {
        let (l0, l1) = bounds[i];
        assert(s@.subrange(l0 as int, l1 as int) == ls[i as int]);
        let ghost rest = spans_from(ls, i as int, run as int);
        let ghost old_r = r@;
        if line_is_table_like(s, l0, l1) {
            let ghost old_rows = rows;
            let cells = cells_in(s, l0, l1);
            assert(row_view(cells) == row_cells(ls[i as int]));
            rows.push(cells);
            assert(table_view(rows) =~= table_view(old_rows).push(row_view(cells)));
            assert(table_view(rows) =~= table_rows(ls, run as int, i + 1));
            assert(rest == spans_from(ls, i + 1, run as int));
        } else {
            let ghost c = close_run(run as int, i as int);
            assert(rest == c + spans_from(ls, i + 1, i + 1));
            if i - run >= 2 {
                let info = close_table(s, bounds, rows, run, i);
                r.push(info);
                assert(rest[0] == (run as int, i as int));
            }
            rows = Vec::new();
            run = i + 1;
            assert(table_view(rows) =~= table_rows(ls, run as int, i + 1));
            proof {
                let nrest = spans_from(ls, i + 1, run as int);
                assert forall|k: int| 0 <= k < nrest.len() implies table_spans(ls)[r@.len() + k]
                    == #[trigger] nrest[k] by {
                    assert(rest[c.len() + k] == nrest[k]);
                }
                assert forall|k: int| 0 <= k < r@.len() implies describes(#[trigger] r@[k], ls, table_spans(ls)[k]) by {
                    if k < old_r.len() {
                        assert(r@[k] == old_r[k]);
                    }
                }
            }
        }
        i = i + 1;
    }
    let ghost old_r = r@;
    assert(spans_from(ls, i as int, run as int) == close_run(run as int, i as int));
    if i - run >= 2 {
        let info = close_table(s, bounds, rows, run, i);
        r.push(info);
        assert(table_spans(ls)[old_r.len() as int] == spans_from(ls, i as int, run as int)[0]);
    }
    assert forall|k: int| 0 <= k < r@.len() implies describes(#[trigger] r@[k], ls, table_spans(ls)[k]) by {
        if k < old_r.len() {
            assert(r@[k] == old_r[k]);
        }
    }
    r
}

/// The tables of a document, each a maximal run of at least two table-like
/// lines, with the rows of cells, the 1-based position of its first line and
/// its span; in the order of the document.
pub fn extract_all_tables_with_spans(markdown: &str) -> (r: Vec<TableInfo>)
    ensures
        r@.len() == table_spans(lines_of(markdown@)).len(),
        forall|k: int|
            0 <= k < r@.len() ==> describes(
                #[trigger] r@[k],
                lines_of(markdown@),
                table_spans(lines_of(markdown@))[k],
            ),
{
    let s = chars_of(markdown);
    let bounds = line_bounds(&s);
    tables_in(&s, &bounds)
}

/// The width of column `c` over the first `n` rows of `t`: the character
/// count of the header cell, or of the longest cell in that column.
pub open spec fn col_width(t: Seq<Seq<Seq<char>>>, c: int, n: int) -> nat
    decreases n,
{
    if n <= 0 {
        t[0][c].len()
    } else {
        let w = col_width(t, c, n - 1);
        let row = t[n - 1];
        if c < row.len() && row[c].len() > w {
            row[c].len()
        } else {
            w
        }
    }
}

/// The column widths of `t`: one per header cell, each the largest character
/// count in its column; none for a table without rows.
pub open spec fn widths(t: Seq<Seq<Seq<char>>>) -> Seq<nat> {
    if t.len() == 0 {
        Seq::empty()
    } else {
        Seq::new(t[0].len(), |c: int| col_width(t, c, t.len() as int))
    }
}

proof fn lemma_col_width_bounds(t: Seq<Seq<Seq<char>>>, c: int, n: int)
    requires
        t.len() > 0,
        0 <= c < t[0].len(),
        0 <= n <= t.len(),
    ensures
        forall|j: int| 0 <= j < n && c < t[j].len() ==> (#[trigger] t[j])[c].len() <= col_width(t, c, n),
        t[0][c].len() <= col_width(t, c, n),
        exists|j: int| 0 <= j < t.len() && c < t[j].len() && (#[trigger] t[j])[c].len() == col_width(t, c, n),
    decreases n,
{
    if n > 0 {
        lemma_col_width_bounds(t, c, n - 1);
    } else {
        assert(t[0][c].len() == col_width(t, c, n));
    }
}

/// Each column's width is the largest character count of a cell in that
/// column: no cell is wider, and some cell has exactly that width. Every
/// cell of the column, padded, is exactly that wide and keeps its whole text.
pub proof fn lemma_widths_are_maxima(t: Seq<Seq<Seq<char>>>, c: int)
    requires
        t.len() > 0,
        0 <= c < t[0].len(),
    ensures
        forall|j: int| 0 <= j < t.len() && c < t[j].len() ==> (#[trigger] t[j])[c].len() <= widths(t)[c],
        exists|j: int| 0 <= j < t.len() && c < t[j].len() && (#[trigger] t[j])[c].len() == widths(t)[c],
        forall|j: int|
            0 <= j < t.len() && c < t[j].len() ==> padded((#[trigger] t[j])[c], widths(t)[c]).len()
                == widths(t)[c] && padded(t[j][c], widths(t)[c]).subrange(0, t[j][c].len() as int)
                == t[j][c],
{
    lemma_col_width_bounds(t, c, t.len() as int);
    assert forall|j: int| 0 <= j < t.len() && c < t[j].len() implies padded(
        (#[trigger] t[j])[c],
        widths(t)[c],
    ).len() == widths(t)[c] && padded(t[j][c], widths(t)[c]).subrange(0, t[j][c].len() as int)
        == t[j][c] by {
        assert(padded(t[j][c], widths(t)[c]).subrange(0, t[j][c].len() as int) =~= t[j][c]);
    }
}

/// The width of each column of `table`, in characters: that of its longest
/// cell, the header included; cells past the header's count are not counted.
pub fn calculate_col_widths(table: &Vec<Vec<String>>) -> (r: Vec<usize>)
    ensures
        nat_widths(r@) == widths(table_view(*table)),
        table@.len() > 0 ==> r@.len() == table@[0]@.len(),
{
    let ghost tv = table_view(*table);
    if table.len() == 0 {
        assert(widths(tv) =~= Seq::<nat>::empty());
        return Vec::new();
    }
    let mut r: Vec<usize> = Vec::new();
    let header = &table[0];
    let mut c: usize = 0;
    while c < header.len()
        invariant
            0 < table@.len(),
            tv == table_view(*table),
            *header == table@[0],
            c <= header@.len(),
            r@.len() == c,
            forall|k: int| 0 <= k < c ==> (#[trigger] r@[k]) as nat == col_width(tv, k, 0),
        decreases header@.len() - c,
    {
        assert(tv[0][c as int] == header@[c as int]@);
        r.push(header[c].unicode_len());
        c = c + 1;
    }
    let mut n: usize = 0;
    while n < table.len()
        invariant
            0 < table@.len(),
            tv == table_view(*table),
            n <= table@.len(),
            r@.len() == tv[0].len(),
            forall|k: int| 0 <= k < r@.len() ==> (#[trigger] r@[k]) as nat == col_width(tv, k, n as int),
        decreases table@.len() - n,
    {
        let row = &table[n];
        let mut c: usize = 0;
        let ghost before = r@;
        while c < row.len() && c < r.len()
            invariant
                n < table@.len(),
                tv == table_view(*table),
                *row == table@[n as int],
                r@.len() == before.len(),
                forall|k: int| 0 <= k < c && k < r@.len() ==> (#[trigger] r@[k]) as nat == col_width(tv, k, n + 1),
                forall|k: int| c <= k < r@.len() ==> (#[trigger] r@[k]) == before[k],
                forall|k: int| 0 <= k < before.len() ==> (#[trigger] before[k]) as nat == col_width(tv, k, n as int),
            decreases row@.len() - c,
        {
            assert(tv[n as int][c as int] == row@[c as int]@);
            let len: usize = row[c].unicode_len();
            if len > r[c] {
                r.set(c, len);
            }
            assert(r@[c as int] as nat == col_width(tv, c as int, n + 1));
            c = c + 1;
        }
        assert forall|k: int| 0 <= k < r@.len() implies (#[trigger] r@[k]) as nat == col_width(tv, k, n + 1) by {
            if k >= c {
                assert(tv[n as int].len() == row@.len());
            }
        }
        n = n + 1;
    }
    assert(nat_widths(r@) =~= widths(tv));
    assert(tv[0].len() == table@[0]@.len());
    r
}

/// `n` copies of `c`.
pub open spec fn repeat(c: char, n: nat) -> Seq<char> {
    Seq::new(n, |j: int| c)
}

/// The text `c` padded with spaces on the right to `w` characters; never cut.
pub open spec fn padded(c: Seq<char>, w: nat) -> Seq<char> {
    c + repeat(' ', if w > c.len() { (w - c.len()) as nat } else { 0 })
}

/// A cell rendered at width `w`: `"| "`, the padded text, and `" "`.
pub open spec fn cell_text(c: Seq<char>, w: nat) -> Seq<char> {
    seq!['|', ' '] + padded(c, w) + seq![' ']
}

/// The first `k` cells of `row`, rendered at the widths `ws`.
pub open spec fn cells_text(row: Seq<Seq<char>>, ws: Seq<nat>, k: int) -> Seq<char>
    decreases k,
{
    if k <= 0 {
        Seq::empty()
    } else {
        cells_text(row, ws, k - 1) + cell_text(row[k - 1], ws[k - 1])
    }
}

/// A row rendered at the widths `ws`: the cells that have a width, then `"|\n"`.
pub open spec fn row_line(row: Seq<Seq<char>>, ws: Seq<nat>) -> Seq<char> {
    cells_text(row, ws, if row.len() < ws.len() { row.len() as int } else { ws.len() as int })
        + seq!['|', '\n']
}

/// The separator cells for the first `k` widths: `"|:"`, one `-` per
/// character of width, and one more `-`.
pub open spec fn sep_text(ws: Seq<nat>, k: int) -> Seq<char>
    decreases k,
{
    if k <= 0 {
        Seq::empty()
    } else {
        sep_text(ws, k - 1) + seq!['|', ':'] + repeat('-', ws[k - 1]) + seq!['-']
    }
}

/// The separator line for the widths `ws`.
pub open spec fn sep_line(ws: Seq<nat>) -> Seq<char> {
    sep_text(ws, ws.len() as int) + seq!['|', '\n']
}

/// The rows `1..k` of `t`, each rendered as a line.
pub open spec fn body_text(t: Seq<Seq<Seq<char>>>, ws: Seq<nat>, k: int) -> Seq<char>
    decreases k,
{
    if k <= 1 {
        Seq::empty()
    } else {
        body_text(t, ws, k - 1) + row_line(t[k - 1], ws)
    }
}

/// The canonical text of `t` at the widths `ws`: the header row, a separator,
/// and every row after the header; nothing for a table without rows.
pub open spec fn render_table(t: Seq<Seq<Seq<char>>>, ws: Seq<nat>) -> Seq<char> {
    if t.len() == 0 {
        Seq::empty()
    } else {
        row_line(t[0], ws) + sep_line(ws) + body_text(t, ws, t.len() as int)
    }
}

/// The widths as natural numbers.
pub open spec fn nat_widths(ws: Seq<usize>) -> Seq<nat> {
    ws.map_values(|w: usize| w as nat)
}

fn push_row(out: &mut Vec<char>, row: &Vec<String>, ws: &Vec<usize>)
    ensures
        final(out)@ == old(out)@ + row_line(row_view(*row), nat_widths(ws@)),
{
    let ghost rv = row_view(*row);
    let ghost wn = nat_widths(ws@);
    let n: usize = if row.len() < ws.len() { row.len() } else { ws.len() };
    let mut k: usize = 0;
    while k < n
        invariant
            k <= n <= row@.len(),
            n <= ws@.len(),
            rv == row_view(*row),
            wn == nat_widths(ws@),
            out@ == old(out)@ + cells_text(rv, wn, k as int),
        decreases n - k,
    {
        let ghost before = out@;
        let cell = chars_of(row[k].as_str());
        assert(cell@ == rv[k as int]);
        out.push('|');
        out.push(' ');
        push_range(out, &cell, 0, cell.len());
        let pad: usize = if ws[k] > cell.len() { ws[k] - cell.len() } else { 0 };
        crate::text::push_repeat(out, ' ', pad);
        out.push(' ');
        assert(cell@.subrange(0, cell@.len() as int) =~= cell@);
        assert(out@ =~= before + cell_text(rv[k as int], wn[k as int]));
        k = k + 1;
    }
    out.push('|');
    out.push('\n');
    assert(out@ =~= old(out)@ + row_line(rv, wn));
}

/// The canonical text of `table`: the header row, a separator row, then each
/// row after the header; each cell left-justified and padded with spaces to
/// its column's width. There must be a width for each header cell; cells of
/// later rows past the last width are left out. An empty table gives an
/// empty text.
pub fn format_table(table: &Vec<Vec<String>>, widths: &Vec<usize>) -> (r: String)
    requires
        table@.len() > 0 ==> table@[0]@.len() <= widths@.len(),
    ensures
        r@ == render_table(table_view(*table), nat_widths(widths@)),
{
    let ghost tv = table_view(*table);
    let ghost wn = nat_widths(widths@);
    let mut out: Vec<char> = Vec::new();
    if table.len() == 0 {
        return string_of(&out);
    }
    push_row(&mut out, &table[0], widths);
    let mut k: usize = 0;
    while k < widths.len()
        invariant
            k <= widths@.len(),
            wn == nat_widths(widths@),
            out@ == row_line(tv[0], wn) + sep_text(wn, k as int),
        decreases widths@.len() - k,
    {
        let ghost before = out@;
        out.push('|');
        out.push(':');
        crate::text::push_repeat(&mut out, '-', widths[k]);
        out.push('-');
        assert(out@ =~= before + seq!['|', ':'] + repeat('-', wn[k as int]) + seq!['-']);
        k = k + 1;
    }
    out.push('|');
    out.push('\n');
    assert(out@ =~= row_line(tv[0], wn) + sep_line(wn) + body_text(tv, wn, 1));
    let mut n: usize = 1;
    while n < table.len()
        invariant
            1 <= n <= table@.len(),
            tv == table_view(*table),
            wn == nat_widths(widths@),
            out@ == row_line(tv[0], wn) + sep_line(wn) + body_text(tv, wn, n as int),
        decreases table@.len() - n,
    {
        push_row(&mut out, &table[n], widths);
        assert(out@ =~= row_line(tv[0], wn) + sep_line(wn) + body_text(tv, wn, n + 1));
        n = n + 1;
    }
    string_of(&out)
}

/// The lines of the canonical text of `t`.
pub open spec fn formatted_lines(t: Seq<Seq<Seq<char>>>) -> Seq<Seq<char>> {
    lines_of(render_table(t, widths(t)))
}

/// The formatted lines of each table of `ls` at the spans `sp`.
pub open spec fn new_tables(ls: Seq<Seq<char>>, sp: Seq<(int, int)>) -> Seq<Seq<Seq<char>>> {
    Seq::new(sp.len(), |k: int| formatted_lines(table_rows(ls, sp[k].0, sp[k].1)))
}

/// `ls` with the lines `a..b` replaced by `f`.
pub open spec fn splice(ls: Seq<Seq<char>>, a: int, b: int, f: Seq<Seq<char>>) -> Seq<Seq<char>> {
    ls.subrange(0, a) + f + ls.subrange(b, ls.len() as int)
}

/// The lines after the spans `sp[k..]` were replaced by `fl[k..]`, the last
/// span first.
pub open spec fn rewritten_from(
    ls: Seq<Seq<char>>,
    sp: Seq<(int, int)>,
    fl: Seq<Seq<Seq<char>>>,
    k: int,
) -> Seq<Seq<char>>
    decreases sp.len() - k,
{
    if k < 0 || k >= sp.len() {
        ls
    } else {
        splice(rewritten_from(ls, sp, fl, k + 1), sp[k].0, sp[k].1, fl[k])
    }
}

/// From line `from` on: the lines of `ls` outside the spans `sp[k..]`, in
/// order and unchanged, with `fl[j]` in place of the span `sp[j]`.
pub open spec fn woven(
    ls: Seq<Seq<char>>,
    sp: Seq<(int, int)>,
    fl: Seq<Seq<Seq<char>>>,
    k: int,
    from: int,
) -> Seq<Seq<char>>
    decreases sp.len() - k,
{
    if k < 0 || k >= sp.len() {
        ls.subrange(from, ls.len() as int)
    } else {
        ls.subrange(from, sp[k].0) + fl[k] + woven(ls, sp, fl, k + 1, sp[k].1)
    }
}

/// The document `s` with every table replaced by its canonical text; `s`
/// itself where it holds no table.
pub open spec fn format_document(s: Seq<char>) -> Seq<char> {
    let ls = lines_of(s);
    let sp = table_spans(ls);
    if sp.len() == 0 {
        s
    } else {
        join_lines(rewritten_from(ls, sp, new_tables(ls, sp), 0))
    }
}

proof fn lemma_rewritten_woven(
    ls: Seq<Seq<char>>,
    sp: Seq<(int, int)>,
    fl: Seq<Seq<Seq<char>>>,
    k: int,
    x: int,
)
    requires
        well_spaced(sp, 0, ls.len() as int),
        0 <= k <= sp.len(),
        0 <= x,
        k < sp.len() ==> x <= sp[k].0,
        k == sp.len() ==> x <= ls.len(),
    ensures
        rewritten_from(ls, sp, fl, k) == ls.subrange(0, x) + woven(ls, sp, fl, k, x),
    decreases sp.len() - k,
{
    if k == sp.len() {
        assert(ls =~= ls.subrange(0, x) + ls.subrange(x, ls.len() as int));
    } else {
        let e = sp[k].1;
        let a = sp[k].0;
        if k + 1 < sp.len() {
            assert(sp[k].1 < sp[k + 1].0);
        }
        lemma_rewritten_woven(ls, sp, fl, k + 1, e);
        let w = woven(ls, sp, fl, k + 1, e);
        let p = rewritten_from(ls, sp, fl, k + 1);
        assert(p == ls.subrange(0, e) + w);
        assert(p.subrange(0, a) =~= ls.subrange(0, a));
        assert(p.subrange(e, p.len() as int) =~= w);
        assert(ls.subrange(0, a) =~= ls.subrange(0, x) + ls.subrange(x, a));
        assert(rewritten_from(ls, sp, fl, k) =~= ls.subrange(0, x) + woven(ls, sp, fl, k, x));
    }
}

/// Formatting a document keeps every line outside its tables: the lines it
/// rewrites are the document's lines with each table's span replaced by that
/// table's formatted lines, the other lines unchanged and in order.
pub proof fn lemma_outside_lines_kept(s: Seq<char>)
    ensures
        ({
            let ls = lines_of(s);
            let sp = table_spans(ls);
            rewritten_from(ls, sp, new_tables(ls, sp), 0) == woven(ls, sp, new_tables(ls, sp), 0, 0)
        }),
{
    let ls = lines_of(s);
    let sp = table_spans(ls);
    lemma_table_spans_disjoint(s);
    lemma_rewritten_woven(ls, sp, new_tables(ls, sp), 0, 0);
    assert(ls.subrange(0, 0) + woven(ls, sp, new_tables(ls, sp), 0, 0) =~= woven(ls, sp, new_tables(ls, sp), 0, 0));
}

/// Each line as its sequence of characters.
pub open spec fn line_views(v: Seq<Vec<char>>) -> Seq<Seq<char>> {
    v.map_values(|l: Vec<char>| l@)
}

/// The lines of `s`, each copied out.
fn copy_lines(s: &Vec<char>, bounds: &Vec<(usize, usize)>) -> (r: Vec<Vec<char>>)
    requires
        lines_at(s@, bounds@),
    ensures
        line_views(r@) == lines_of(s@),
{
    let mut r: Vec<Vec<char>> = Vec::new();
    let mut k: usize = 0;
    while k < bounds.len()
        invariant
            lines_at(s@, bounds@),
            k <= bounds@.len(),
            line_views(r@) == lines_of(s@).subrange(0, k as int),
        decreases bounds@.len() - k,
    {
        let (a, b) = bounds[k];
        let mut v: Vec<char> = Vec::new();
        push_range(&mut v, s, a, b);
        assert(v@ == s@.subrange(a as int, b as int));
        let ghost before = r@;
        r.push(v);
        assert(line_views(r@) =~= line_views(before).push(v@));
        assert(line_views(r@) =~= lines_of(s@).subrange(0, k + 1));
        k = k + 1;
    }
    assert(lines_of(s@).subrange(0, k as int) =~= lines_of(s@));
    r
}

/// `cur` with its lines `a..b` replaced by the lines of `f`.
fn splice_lines(cur: &Vec<Vec<char>>, a: usize, b: usize, f: &Vec<char>) -> (r: Vec<Vec<char>>)
    requires
        a <= b <= cur@.len(),
    ensures
        line_views(r@) == splice(line_views(cur@), a as int, b as int, lines_of(f@)),
{
    let ghost cv = line_views(cur@);
    let fb = line_bounds(f);
    let mid = copy_lines(f, &fb);
    let mut r: Vec<Vec<char>> = Vec::new();
    let mut k: usize = 0;
    while k < a
        invariant
            k <= a <= b <= cur@.len(),
            cv == line_views(cur@),
            line_views(r@) == cv.subrange(0, k as int),
        decreases a - k,
    {
        let ghost before = r@;
        r.push(cur[k].clone());
        assert(line_views(r@) =~= line_views(before).push(cv[k as int]));
        assert(line_views(r@) =~= cv.subrange(0, k + 1));
        k = k + 1;
    }
    let mut j: usize = 0;
    while j < mid.len()
        invariant
            j <= mid@.len(),
            line_views(mid@) == lines_of(f@),
            line_views(r@) == cv.subrange(0, a as int) + line_views(mid@).subrange(0, j as int),
        decreases mid@.len() - j,
    {
        let ghost before = r@;
        r.push(mid[j].clone());
        assert(line_views(r@) =~= line_views(before).push(line_views(mid@)[j as int]));
        assert(line_views(r@) =~= cv.subrange(0, a as int) + line_views(mid@).subrange(0, j + 1));
        j = j + 1;
    }
    let mut k: usize = b;
    assert(line_views(mid@).subrange(0, j as int) =~= lines_of(f@));
    assert(cv.subrange(b as int, b as int) =~= Seq::<Seq<char>>::empty());
    while k < cur.len()
        invariant
            a <= b <= k <= cur@.len(),
            cv == line_views(cur@),
            line_views(r@) == cv.subrange(0, a as int) + lines_of(f@) + cv.subrange(b as int, k as int),
        decreases cur@.len() - k,
    {
        let ghost before = r@;
        r.push(cur[k].clone());
        assert(line_views(r@) =~= line_views(before).push(cv[k as int]));
        assert(cv.subrange(b as int, k + 1) =~= cv.subrange(b as int, k as int).push(cv[k as int]));
        assert(line_views(r@) =~= cv.subrange(0, a as int) + lines_of(f@) + cv.subrange(b as int, k + 1));
        k = k + 1;
    }
    r
}

/// The lines joined with `'\n'` between them.
pub(crate) fn join_with_newlines(lines: &Vec<Vec<char>>) -> (r: Vec<char>)
    ensures
        r@ == join_lines(line_views(lines@)),
{
    let ghost lv = line_views(lines@);
    let mut out: Vec<char> = Vec::new();
    let mut k: usize = 0;
    assert(lv.subrange(0, 0) =~= Seq::<Seq<char>>::empty());
    while k < lines.len()
        invariant
            k <= lines@.len(),
            lv == line_views(lines@),
            out@ == join_lines(lv.subrange(0, k as int)),
        decreases lines@.len() - k,
    {
        let ghost before = out@;
        if k > 0 {
            out.push('\n');
        }
        let line = &lines[k];
        push_range(&mut out, line, 0, line.len());
        assert(line@.subrange(0, line@.len() as int) =~= line@);
        let ghost next = lv.subrange(0, k + 1);
        assert(next.drop_last() =~= lv.subrange(0, k as int));
        assert(out@ =~= join_lines(next));
        k = k + 1;
    }
    assert(lv.subrange(0, k as int) =~= lv);
    out
}

/// The document with every table rewritten in canonical form. The tables are
/// replaced from the last to the first, so that the line numbers of the
/// tables not yet replaced stay valid; the lines are then joined with `'\n'`.
/// A document without tables comes back unchanged.
pub fn format_all_tables_in_markdown(markdown: &str) -> (r: String)
    ensures
        r@ == format_document(markdown@),
{
    let s = chars_of(markdown);
    let bounds = line_bounds(&s);
    let infos = tables_in(&s, &bounds);
    let ghost ls = lines_of(s@);
    let ghost sp = table_spans(ls);
    let ghost fl = new_tables(ls, sp);
    if infos.len() == 0 {
        return string_of(&s);
    }
    let mut cur = copy_lines(&s, &bounds);
    let mut k: usize = infos.len();
    proof {
        lemma_table_spans_disjoint(markdown@);
    }
    while k > 0
        invariant
            k <= infos@.len() == sp.len(),
            ls == lines_of(s@),
            sp == table_spans(ls),
            fl == new_tables(ls, sp),
            well_spaced(sp, 0, ls.len() as int),
            forall|j: int| 0 <= j < infos@.len() ==> describes(#[trigger] infos@[j], ls, sp[j]),
            line_views(cur@) == rewritten_from(ls, sp, fl, k as int),
        decreases k,
    {
        k = k - 1;
        let info = &infos[k];
        assert(describes(infos@[k as int], ls, sp[k as int]));
        let ws = calculate_col_widths(&info.table);
        let text = format_table(&info.table, &ws);
        let f = chars_of(text.as_str());
        assert(lines_of(f@) == fl[k as int]);
        proof {
            let e = sp[k as int].1;
            if (k + 1) < sp.len() {
                assert(sp[k as int].1 < sp[k + 1].0);
            }
            lemma_rewritten_woven(ls, sp, fl, k + 1, e);
        }
        let a: usize = info.span.start.line - 1;
        let b: usize = info.span.end.line;
        assert(line_views(cur@).len() == cur@.len());
        assert(ls.subrange(0, b as int).len() == b);
        cur = splice_lines(&cur, a, b, &f);
    }
    let out = join_with_newlines(&cur);
    string_of(&out)
}

/// The 1-based line `line` lies in a table of the document `s`.
pub open spec fn line_in_table(s: Seq<char>, line: int) -> bool {
    exists|k: int|
        0 <= k < table_spans(lines_of(s)).len() && (#[trigger] table_spans(lines_of(s))[k]).0 < line
            <= table_spans(lines_of(s))[k].1
}

/// Whether the 1-based line `cursor_line` lies in a table's span. The column
/// takes no part.
pub fn is_cursor_in_table(markdown: &str, cursor_line: usize, _cursor_col: usize) -> (r: bool)
    ensures
        r == line_in_table(markdown@, cursor_line as int),
{
    let tables = extract_all_tables_with_spans(markdown);
    let ghost sp = table_spans(lines_of(markdown@));
    let mut k: usize = 0;
    while k < tables.len()
        invariant
            k <= tables@.len() == sp.len(),
            sp == table_spans(lines_of(markdown@)),
            forall|j: int| 0 <= j < tables@.len() ==> describes(#[trigger] tables@[j], lines_of(markdown@), sp[j]),
            forall|j: int| 0 <= j < k ==> !(sp[j].0 < cursor_line <= #[trigger] sp[j].1),
        decreases tables@.len() - k,
    {
        let span = tables[k].span;
        assert(describes(tables@[k as int], lines_of(markdown@), sp[k as int]));
        if cursor_line >= span.start.line && cursor_line <= span.end.line {
            return true;
        }
        k = k + 1;
    }
    false
}

/// The document with its tables formatted when the 1-based line
/// `cursor_line` lies in a table (every table of the document, not only that
/// one); the document unchanged otherwise.
pub fn format_table_at_position(markdown: &str, cursor_line: usize, cursor_col: usize) -> (r: String)
    ensures
        r@ == if line_in_table(markdown@, cursor_line as int) {
            format_document(markdown@)
        } else {
            markdown@
        },
{
    if is_cursor_in_table(markdown, cursor_line, cursor_col) {
        format_all_tables_in_markdown(markdown)
    } else {
        let s = chars_of(markdown);
        string_of(&s)
    }
}

/// The canonical text of each table of the document, with its span, in the
/// order of the document.
pub fn get_formatted_tables(markdown: &str) -> (r: Vec<(String, Span)>)
    ensures
        r@.len() == table_spans(lines_of(markdown@)).len(),
        forall|k: int|
            0 <= k < r@.len() ==> {
                let ls = lines_of(markdown@);
                let sp = table_spans(ls)[k];
                let t = table_rows(ls, sp.0, sp.1);
                &&& (#[trigger] r@[k]).0@ == render_table(t, widths(t))
                &&& span_of(r@[k].1, ls, sp)
            },
{
    let tables = extract_all_tables_with_spans(markdown);
    let ghost ls = lines_of(markdown@);
    let ghost sp = table_spans(ls);
    let mut r: Vec<(String, Span)> = Vec::new();
    let mut k: usize = 0;
    while k < tables.len()
        invariant
            k <= tables@.len() == sp.len(),
            ls == lines_of(markdown@),
            sp == table_spans(ls),
            forall|j: int| 0 <= j < tables@.len() ==> describes(#[trigger] tables@[j], ls, sp[j]),
            r@.len() == k,
            forall|j: int|
                0 <= j < k ==> {
                    let t = table_rows(ls, sp[j].0, sp[j].1);
                    &&& (#[trigger] r@[j]).0@ == render_table(t, widths(t))
                    &&& span_of(r@[j].1, ls, sp[j])
                },
        decreases tables@.len() - k,
    {
        let info = &tables[k];
        assert(describes(tables@[k as int], ls, sp[k as int]));
        let ws = calculate_col_widths(&info.table);
        let text = format_table(&info.table, &ws);
        r.push((text, info.span));
        k = k + 1;
    }
    r
}

/// The 1-based position of the character offset `offset` in `s`, as (line,
/// column): the line is one more than the newlines before the offset, the
/// column one more than the characters since the last of them. An offset
/// past the end counts as the end.
pub open spec fn position_at(s: Seq<char>, offset: int) -> (int, int) {
    let o = if offset < s.len() { offset } else { s.len() as int };
    let segs = segments(s.subrange(0, o));
    (segs.len() as int, segs.last().len() + 1 as int)
}

/// The 1-based line and column of the character offset `offset` in
/// `markdown`; columns count characters, not bytes.
pub fn offset_to_position(markdown: &str, offset: usize) -> (r: Position)
    requires
        markdown@.len() < usize::MAX,
    ensures
        (r.line as int, r.column as int) == position_at(markdown@, offset as int),
{
    let s = chars_of(markdown);
    let end: usize = if offset < s.len() { offset } else { s.len() };
    let mut line: usize = 1;
    let mut column: usize = 1;
    let mut i: usize = 0;
    assert(s@.subrange(0, 0) =~= Seq::<char>::empty());
    while i < end
        invariant
            i <= end <= s@.len(),
            s@.len() < usize::MAX,
            line as int == segments(s@.subrange(0, i as int)).len(),
            column as int == segments(s@.subrange(0, i as int)).last().len() + 1,
            line <= i + 1,
            column <= i + 1,
        decreases end - i,
    {
        let ghost prev = segments(s@.subrange(0, i as int));
        proof {
            crate::text::lemma_pieces_nonempty(s@.subrange(0, i as int), '\n');
        }
        assert(s@.subrange(0, i + 1).drop_last() =~= s@.subrange(0, i as int));
        assert(s@.subrange(0, i + 1).last() == s@[i as int]);
        if s[i] == '\n' {
            assert(segments(s@.subrange(0, i + 1)) == prev.push(Seq::<char>::empty()));
            line = line + 1;
            column = 1;
        } else {
            assert(segments(s@.subrange(0, i + 1)) == prev.update(
                prev.len() - 1,
                prev.last().push(s@[i as int]),
            ));
            column = column + 1;
        }
        i = i + 1;
    }
    assert(markdown@ == s@);
    Position { line, column }
}

/// What a Markdown parser reports, as far as reading tables needs it.
pub enum MdEvent {
    /// A table begins, at this character offset.
    TableStart(usize),
    TableEnd,
    /// The header row of a table begins.
    HeadStart,
    /// The header row of a table ends.
    HeadEnd,
    RowStart,
    RowEnd,
    CellStart,
    /// Text, inside a cell or elsewhere.
    Text(String),
    /// Anything else.
    Other,
}

/// An event as plain values.
pub enum EventView {
    TableStart(nat),
    TableEnd,
    HeadStart,
    HeadEnd,
    RowStart,
    RowEnd,
    CellStart,
    Text(Seq<char>),
    Other,
}

impl View for MdEvent {
    type V = EventView;

    open spec fn view(&self) -> EventView {
        match self {
            MdEvent::TableStart(o) => EventView::TableStart(*o as nat),
            MdEvent::TableEnd => EventView::TableEnd,
            MdEvent::HeadStart => EventView::HeadStart,
            MdEvent::HeadEnd => EventView::HeadEnd,
            MdEvent::RowStart => EventView::RowStart,
            MdEvent::RowEnd => EventView::RowEnd,
            MdEvent::CellStart => EventView::CellStart,
            MdEvent::Text(s) => EventView::Text(s@),
            MdEvent::Other => EventView::Other,
        }
    }
}

/// The events of a document, in order.
pub open spec fn events_view(v: Seq<MdEvent>) -> Seq<EventView> {
    v.map_values(|e: MdEvent| e@)
}

/// The events that the CommonMark parser reports for a document with table
/// syntax enabled.
pub uninterp spec fn cmark_events(s: Seq<char>) -> Seq<EventView>;

/// Relies on `pulldown_cmark::Parser::new_ext` with `Options::ENABLE_TABLES`
/// and its `into_offset_iter`: the events it reports depend on the text alone.
/// Each table's byte offset is turned into a character offset.
#[verifier::external_body]
fn parse_events(markdown: &str) -> (r: Vec<MdEvent>)
    ensures
        events_view(r@) == cmark_events(markdown@),
{
    let parser = Parser::new_ext(markdown, Options::ENABLE_TABLES);
    parser.into_offset_iter().map(|(event, range)| match event {
        Event::Start(Tag::Table(_)) => MdEvent::TableStart(markdown[..range.start].chars().count()),
        Event::End(TagEnd::Table) => MdEvent::TableEnd,
        Event::Start(Tag::TableHead) => MdEvent::HeadStart,
        Event::End(TagEnd::TableHead) => MdEvent::HeadEnd,
        Event::Start(Tag::TableRow) => MdEvent::RowStart,
        Event::End(TagEnd::TableRow) => MdEvent::RowEnd,
        Event::Start(Tag::TableCell) => MdEvent::CellStart,
        Event::Text(text) => MdEvent::Text(text.to_string()),
        _ => MdEvent::Other,
    }).collect()
}

/// The state of a reading of events: the tables read so far with their
/// character offsets, the table and row being read, whether inside a table,
/// and where the current table began.
pub struct ReadState {
    pub tables: Seq<(Seq<Seq<Seq<char>>>, nat)>,
    pub table: Seq<Seq<Seq<char>>>,
    pub row: Seq<Seq<char>>,
    pub in_table: bool,
    pub start: nat,
}

/// The state after one event. A table start opens a new table; inside a
/// table the start of a row (the header row included) empties the row, its end
/// adds a copy of the row to the table, a cell start adds an empty cell and text extends the last cell; a
/// table end records the table and empties it.
pub open spec fn read_step(st: ReadState, e: EventView) -> ReadState {
    match e {
        EventView::TableStart(o) => ReadState { table: Seq::empty(), in_table: true, start: o, ..st },
        EventView::TableEnd => if st.in_table {
            ReadState {
                tables: st.tables.push((st.table, st.start)),
                table: Seq::empty(),
                in_table: false,
                ..st
            }
        } else {
            st
        },
        EventView::HeadStart => if st.in_table {
            ReadState { row: Seq::empty(), ..st }
        } else {
            st
        },
        EventView::HeadEnd => if st.in_table {
            ReadState { table: st.table.push(st.row), ..st }
        } else {
            st
        },
        EventView::RowStart => if st.in_table {
            ReadState { row: Seq::empty(), ..st }
        } else {
            st
        },
        EventView::RowEnd => if st.in_table {
            ReadState { table: st.table.push(st.row), ..st }
        } else {
            st
        },
        EventView::CellStart => if st.in_table {
            ReadState { row: st.row.push(Seq::empty()), ..st }
        } else {
            st
        },
        EventView::Text(t) => if st.in_table && st.row.len() > 0 {
            ReadState { row: st.row.update(st.row.len() - 1, st.row.last() + t), ..st }
        } else {
            st
        },
        EventView::Other => st,
    }
}

/// The state after reading the events `evs` from the start.
pub open spec fn read_events(evs: Seq<EventView>) -> ReadState
    decreases evs.len(),
{
    if evs.len() == 0 {
        ReadState { tables: Seq::empty(), table: Seq::empty(), row: Seq::empty(), in_table: false, start: 0 }
    } else {
        read_step(read_events(evs.drop_last()), evs.last())
    }
}

fn copy_row(row: &Vec<String>) -> (r: Vec<String>)
    ensures
        row_view(r) == row_view(*row),
{
    let mut r: Vec<String> = Vec::new();
    let mut k: usize = 0;
    while k < row.len()
        invariant
            k <= row@.len(),
            row_view(r) == row_view(*row).subrange(0, k as int),
        decreases row@.len() - k,
    {
        let ghost before = r;
        let c = row[k].clone();
        assert(c@ == row_view(*row)[k as int]);
        r.push(c);
        assert(row_view(r) =~= row_view(before).push(c@));
        assert(row_view(r) =~= row_view(*row).subrange(0, k + 1));
        k = k + 1;
    }
    assert(row_view(*row).subrange(0, k as int) =~= row_view(*row));
    r
}

/// The tables that the events `events` of the document `markdown` describe,
/// each with the 1-based position where it begins. Only tables that the events
/// close are given.
pub fn tables_from_events(markdown: &str, events: &Vec<MdEvent>) -> (r: Vec<(Vec<Vec<String>>, Position)>)
    requires
        markdown@.len() < usize::MAX,
    ensures
        r@.len() == read_events(events_view(events@)).tables.len(),
        forall|k: int|
            0 <= k < r@.len() ==> {
                let t = read_events(events_view(events@)).tables[k];
                &&& table_view((#[trigger] r@[k]).0) == t.0
                &&& (r@[k].1.line as int, r@[k].1.column as int) == position_at(markdown@, t.1 as int)
            },
{
    let ghost evs = events_view(events@);
    let mut tables: Vec<(Vec<Vec<String>>, Position)> = Vec::new();
    let mut table: Vec<Vec<String>> = Vec::new();
    let mut row: Vec<String> = Vec::new();
    let mut in_table = false;
    let mut start: usize = 0;
    let mut k: usize = 0;
    assert(evs.subrange(0, 0) =~= Seq::<EventView>::empty());
    while k < events.len()
        invariant
            k <= events@.len(),
            evs == events_view(events@),
            markdown@.len() < usize::MAX,
            tables@.len() == read_events(evs.subrange(0, k as int)).tables.len(),
            forall|j: int|
                0 <= j < tables@.len() ==> {
                    let t = read_events(evs.subrange(0, k as int)).tables[j];
                    &&& table_view((#[trigger] tables@[j]).0) == t.0
                    &&& (tables@[j].1.line as int, tables@[j].1.column as int) == position_at(
                        markdown@,
                        t.1 as int,
                    )
                },
            table_view(table) == read_events(evs.subrange(0, k as int)).table,
            row_view(row) == read_events(evs.subrange(0, k as int)).row,
            in_table == read_events(evs.subrange(0, k as int)).in_table,
            start as nat == read_events(evs.subrange(0, k as int)).start,
        decreases events@.len() - k,
    {
        let ghost st = read_events(evs.subrange(0, k as int));
        assert(evs.subrange(0, k + 1).drop_last() =~= evs.subrange(0, k as int));
        assert(evs.subrange(0, k + 1).last() == events@[k as int]@);
        let ghost old_tables = tables@;
        match &events[k] {
            MdEvent::TableStart(o) => {
                in_table = true;
                table = Vec::new();
                start = *o;
                assert(table_view(table) =~= Seq::<Seq<Seq<char>>>::empty());
            },
            MdEvent::TableEnd => {
                if in_table {
                    let position = offset_to_position(markdown, start);
                    tables.push((table, position));
                    table = Vec::new();
                    in_table = false;
                    assert(table_view(table) =~= Seq::<Seq<Seq<char>>>::empty());
                }
            },
            MdEvent::HeadStart => {
                if in_table {
                    row = Vec::new();
                    assert(row_view(row) =~= Seq::<Seq<char>>::empty());
                }
            },
            MdEvent::HeadEnd => {
                if in_table {
                    let ghost before = table;
                    table.push(copy_row(&row));
                    assert(table_view(table) =~= table_view(before).push(st.row));
                }
            },
            MdEvent::RowStart => {
                if in_table {
                    row = Vec::new();
                    assert(row_view(row) =~= Seq::<Seq<char>>::empty());
                }
            },
            MdEvent::RowEnd => {
                if in_table {
                    let ghost before = table;
                    table.push(copy_row(&row));
                    assert(table_view(table) =~= table_view(before).push(st.row));
                }
            },
            MdEvent::CellStart => {
                if in_table {
                    let ghost before = row;
                    row.push(String::new());
                    assert(row_view(row) =~= row_view(before).push(Seq::<char>::empty()));
                }
            },
            MdEvent::Text(text) => {
                if in_table && row.len() > 0 {
                    let last: usize = row.len() - 1;
                    let mut cell = chars_of(row[last].as_str());
                    let add = chars_of(text.as_str());
                    push_range(&mut cell, &add, 0, add.len());
                    assert(add@.subrange(0, add@.len() as int) =~= add@);
                    let ghost before = row;
                    row.set(last, string_of(&cell));
                    assert(row_view(row) =~= row_view(before).update(last as int, st.row.last() + text@));
                }
            },
            MdEvent::Other => {},
        }
        proof {
            let nst = read_events(evs.subrange(0, k + 1));
            assert(nst == read_step(st, evs[k as int]));
            assert forall|j: int| 0 <= j < tables@.len() implies {
                let t = nst.tables[j];
                &&& table_view((#[trigger] tables@[j]).0) == t.0
                &&& (tables@[j].1.line as int, tables@[j].1.column as int) == position_at(markdown@, t.1 as int)
            } by {
                if j < old_tables.len() {
                    assert(tables@[j] == old_tables[j]);
                }
            }
        }
        k = k + 1;
    }
    assert(evs.subrange(0, k as int) =~= evs);
    tables
}

/// The tables that the CommonMark parser finds in `markdown` (with table
/// syntax enabled), each as its rows of cell texts with the 1-based position
/// where it begins. Row 0 is the header row; the body rows follow in order.
pub fn extract_all_tables(markdown: &str) -> (r: Vec<(Vec<Vec<String>>, Position)>)
    requires
        markdown@.len() < usize::MAX,
    ensures
        r@.len() == read_events(cmark_events(markdown@)).tables.len(),
        forall|k: int|
            0 <= k < r@.len() ==> {
                let t = read_events(cmark_events(markdown@)).tables[k];
                &&& table_view((#[trigger] r@[k]).0) == t.0
                &&& (r@[k].1.line as int, r@[k].1.column as int) == position_at(markdown@, t.1 as int)
            },
{
    let events = parse_events(markdown);
    tables_from_events(markdown, &events)
}

/// A document without tables is left as it is, so formatting it twice gives
/// what formatting it once gives.
pub proof fn lemma_format_idempotent_without_tables(s: Seq<char>)
    requires
        table_spans(lines_of(s)).len() == 0,
    ensures
        format_document(s) == s,
        format_document(format_document(s)) == format_document(s),
{
}

/// The character count of the first `k` rendered cells at the widths `ws`:
/// each cell takes its width and three more characters (`"| "` and `" "`).
pub open spec fn line_width(ws: Seq<nat>, k: int) -> nat
    decreases k,
{
    if k <= 0 {
        0
    } else {
        line_width(ws, k - 1) + ws[k - 1] + 3
    }
}

proof fn lemma_cells_text_len(row: Seq<Seq<char>>, ws: Seq<nat>, k: int)
    requires
        0 <= k <= row.len(),
        k <= ws.len(),
        forall|c: int| 0 <= c < k ==> (#[trigger] row[c]).len() <= ws[c],
    ensures
        cells_text(row, ws, k).len() == line_width(ws, k),
    decreases k,
{
    if k > 0 {
        lemma_cells_text_len(row, ws, k - 1);
        assert(row[k - 1].len() <= ws[k - 1]);
    }
}

proof fn lemma_sep_text_len(ws: Seq<nat>, k: int)
    requires
        0 <= k <= ws.len(),
    ensures
        sep_text(ws, k).len() == line_width(ws, k),
    decreases k,
{
    if k > 0 {
        lemma_sep_text_len(ws, k - 1);
    }
}

/// With each column at its widest cell, the rendered lines line up: the
/// header line, the separator line and every row with at least as many cells
/// as the header have the same character count (two more than the cells'
/// total, for the closing `"|\n"`), and each of that row's cells is padded to
/// exactly its column's width without being cut.
pub proof fn lemma_rendered_lines_align(t: Seq<Seq<Seq<char>>>, j: int)
    requires
        t.len() > 0,
        0 <= j < t.len(),
        t[j].len() >= t[0].len(),
    ensures
        row_line(t[0], widths(t)).len() == line_width(widths(t), t[0].len() as int) + 2,
        sep_line(widths(t)).len() == line_width(widths(t), t[0].len() as int) + 2,
        row_line(t[j], widths(t)).len() == line_width(widths(t), t[0].len() as int) + 2,
        forall|c: int|
            0 <= c < t[0].len() ==> padded(#[trigger] t[j][c], widths(t)[c]).len() == widths(t)[c]
                && padded(t[j][c], widths(t)[c]).subrange(0, t[j][c].len() as int) == t[j][c],
{
    let ws = widths(t);
    let n = t[0].len() as int;
    assert forall|c: int| 0 <= c < n implies (#[trigger] t[j][c]).len() <= ws[c] && t[0][c].len()
        <= ws[c] && padded(t[j][c], ws[c]).len() == ws[c] && padded(t[j][c], ws[c]).subrange(
        0,
        t[j][c].len() as int,
    ) == t[j][c] by {
        lemma_widths_are_maxima(t, c);
        assert(t[j][c].len() <= ws[c]);
        assert(t[0][c].len() <= ws[c]);
    }
    assert forall|c: int| 0 <= c < n implies (#[trigger] t[0][c]).len() <= ws[c] by {
        assert(t[0][c].len() <= ws[c]);
    }
    lemma_cells_text_len(t[0], ws, n);
    lemma_cells_text_len(t[j], ws, n);
    lemma_sep_text_len(ws, n);
}

/// Some row holds a cell exactly as wide as its column: the row is returned.
pub proof fn lemma_width_attained(t: Seq<Seq<Seq<char>>>, c: int) -> (j: int)
    requires
        t.len() > 0,
        0 <= c < t[0].len(),
    ensures
        0 <= j < t.len(),
        c < t[j].len(),
        t[j][c].len() == widths(t)[c],
{
    lemma_widths_are_maxima(t, c);
    choose|j: int| 0 <= j < t.len() && c < t[j].len() && (#[trigger] t[j])[c].len() == widths(t)[c]
}

} // verus!
