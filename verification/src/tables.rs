//! HTML `<table>` blocks rendered as Markdown pipe tables.
use vstd::prelude::*;

use crate::blocks::{strip_spans, strip_spans_exec};
use crate::text::{
    append_all, append_range, chars_of, contains, contains_exec, find, find_from, join, join_exec,
    lemma_close_after_open, lemma_find_from_shift, lemma_first_block, lemma_first_match,
    lemma_no_close_in_open, replace_all, replace_exec, search, slice, trim, trim_slice, views,
};

verus! {

/// `h` with every `<colgroup>...</colgroup>` removed, first occurrence first.
pub open spec fn remove_colgroup(h: Seq<char>) -> Seq<char>
    decreases h.len(),
{
    match find(h, "<colgroup>"@) {
        None => h,
        Some(st) => match find_from(h, "</colgroup>"@, st) {
            None => h,
            Some(e) => {
                let end = e + "</colgroup>"@.len();
                if 0 <= st < end <= h.len() {
                    remove_colgroup(h.subrange(0, st) + h.subrange(end, h.len() as int))
                } else {
                    h
                }
            },
        },
    }
}

fn remove_colgroup_exec(input: Vec<char>) -> (out: Vec<char>)
    ensures
        out@ == remove_colgroup(input@),
{
    let open = chars_of("<colgroup>");
    let close = chars_of("</colgroup>");
    proof {
        reveal_strlit("</colgroup>");
    }
    let mut s = input;
    loop
        invariant
            open@ == "<colgroup>"@,
            close@ == "</colgroup>"@,
            close@.len() == 11,
            remove_colgroup(s@) == remove_colgroup(input@),
        decreases s.len(),
    {
        let st = match search(&s, &open, 0) {
            None => return s,
            Some(x) => x,
        };
        let e = match search(&s, &close, st) {
            None => return s,
            Some(x) => x,
        };
        let mut next = slice(&s, 0, st);
        append_range(&mut next, &s, e + close.len(), s.len());
        s = next;
    }
}

/// A cell's text: trimmed; where it holds `<` or `|`, spans are unwrapped,
/// `<br/>` and `<br>` become spaces, `|` is escaped and the result trimmed again.
pub open spec fn clean_cell(c: Seq<char>) -> Seq<char> {
    let t = trim(c);
    if !contains(t, "<"@) && !contains(t, "|"@) {
        t
    } else {
        trim(
            replace_all(
                replace_all(replace_all(strip_spans(t), "<br/>"@, " "@), "<br>"@, " "@),
                "|"@,
                "\\|"@,
            ),
        )
    }
}

fn clean_cell_exec(s: &Vec<char>, lo: usize, hi: usize) -> (out: Vec<char>)
    requires
        lo <= hi <= s.len(),
    ensures
        out@ == clean_cell(s@.subrange(lo as int, hi as int)),
{
    let t = trim_slice(s, lo, hi);
    if !contains_exec(&t, &chars_of("<")) && !contains_exec(&t, &chars_of("|")) {
        return t;
    }
    proof {
        reveal_strlit("<br/>");
        reveal_strlit("<br>");
        reveal_strlit("|");
    }
    let x = strip_spans_exec(t);
    let x = replace_exec(&x, &chars_of("<br/>"), &chars_of(" "));
    let x = replace_exec(&x, &chars_of("<br>"), &chars_of(" "));
    let x = replace_exec(&x, &chars_of("|"), &chars_of("\\|"));
    assert(x@.subrange(0, x@.len() as int) =~= x@);
    trim_slice(&x, 0, x.len())
}

/// Cells of a table row: the cleaned content of each `<td ...>...</td>`, from `i` on.
pub open spec fn extract_cells_from(r: Seq<char>, i: int) -> Seq<Seq<char>>
    decreases r.len() - i,
{
    match find_from(r, "<td"@, i) {
        None => Seq::empty(),
        Some(td) => match find_from(r, seq!['>'], td) {
            None => Seq::empty(),
            Some(g) => match find_from(r, "</td>"@, g + 1) {
                None => Seq::empty(),
                Some(e) => if 0 <= i <= td <= g && g + 1 <= e && e + "</td>"@.len() <= r.len() {
                    seq![clean_cell(r.subrange(g + 1, e))] + extract_cells_from(
                        r,
                        e + "</td>"@.len(),
                    )
                } else {
                    Seq::empty()
                },
            },
        },
    }
}

pub open spec fn extract_cells(r: Seq<char>) -> Seq<Seq<char>> {
    extract_cells_from(r, 0)
}

fn extract_cells_exec(r: &Vec<char>) -> (cells: Vec<Vec<char>>)
    ensures
        views(cells@) == extract_cells(r@),
{
    let open = chars_of("<td");
    let close = chars_of("</td>");
    let gt = vec!['>'];
    assert(gt@ =~= seq!['>']);
    proof {
        reveal_strlit("</td>");
    }
    let mut cells: Vec<Vec<char>> = Vec::new();
    let mut i: usize = 0;
    loop
        invariant
            i <= r.len(),
            open@ == "<td"@,
            close@ == "</td>"@,
            close@.len() == 5,
            gt@ == seq!['>'],
            views(cells@) + extract_cells_from(r@, i as int) == extract_cells(r@),
        decreases r.len() - i,
    {
        let td = match search(r, &open, i) {
            None => {
                assert(views(cells@) + Seq::<Seq<char>>::empty() =~= views(cells@));
                return cells;
            },
            Some(x) => x,
        };
        let g = match search(r, &gt, td) {
            None => {
                assert(views(cells@) + Seq::<Seq<char>>::empty() =~= views(cells@));
                return cells;
            },
            Some(x) => x,
        };
        let e = match search(r, &close, g + 1) {
            None => {
                assert(views(cells@) + Seq::<Seq<char>>::empty() =~= views(cells@));
                return cells;
            },
            Some(x) => x,
        };
        let cell = clean_cell_exec(r, g + 1, e);
        let ghost before = views(cells@);
        cells.push(cell);
        assert(views(cells@) =~= before.push(cell@));
        assert(before + (seq![cell@] + extract_cells_from(r@, e + 5)) =~= views(cells@)
            + extract_cells_from(r@, e + 5));
        i = e + close.len();
    }
}

/// Rows of a table body with at least one cell, from `i` on.
pub open spec fn parse_rows_from(c: Seq<char>, i: int) -> Seq<Seq<Seq<char>>>
    decreases c.len() - i,
{
    match find_from(c, "<tr>"@, i) {
        None => Seq::empty(),
        Some(tr) => {
            let a = tr + "<tr>"@.len();
            match find_from(c, "</tr>"@, a) {
                None => Seq::empty(),
                Some(e) => if 0 <= i <= tr && tr < a <= e && e + "</tr>"@.len() <= c.len() {
                    let cells = extract_cells(c.subrange(a, e));
                    (if cells.len() > 0 {
                        seq![cells]
                    } else {
                        Seq::empty()
                    }) + parse_rows_from(c, e + "</tr>"@.len())
                } else {
                    Seq::empty()
                },
            }
        },
    }
}

/// The rows of a table body, column groups removed first.
pub open spec fn parse_rows(h: Seq<char>) -> Seq<Seq<Seq<char>>> {
    parse_rows_from(remove_colgroup(h), 0)
}

/// Views of a grid of character vectors.
pub open spec fn grid_view(rows: Seq<Vec<Vec<char>>>) -> Seq<Seq<Seq<char>>> {
    rows.map_values(|r: Vec<Vec<char>>| views(r@))
}

fn parse_rows_exec(h: Vec<char>) -> (rows: Vec<Vec<Vec<char>>>)
    ensures
        grid_view(rows@) == parse_rows(h@),
{
    let c = remove_colgroup_exec(h);
    let open = chars_of("<tr>");
    let close = chars_of("</tr>");
    proof {
        reveal_strlit("<tr>");
        reveal_strlit("</tr>");
    }
    let mut rows: Vec<Vec<Vec<char>>> = Vec::new();
    let mut i: usize = 0;
    loop
        invariant
            i <= c.len(),
            open@ == "<tr>"@,
            close@ == "</tr>"@,
            open@.len() == 4,
            close@.len() == 5,
            c@ == remove_colgroup(h@),
            grid_view(rows@) + parse_rows_from(c@, i as int) == parse_rows_from(c@, 0),
        decreases c.len() - i,
    {
        let tr = match search(&c, &open, i) {
            None => {
                assert(grid_view(rows@) + Seq::<Seq<Seq<char>>>::empty() =~= grid_view(rows@));
                return rows;
            },
            Some(x) => x,
        };
        let a = tr + open.len();
        let e = match search(&c, &close, a) {
            None => {
                assert(grid_view(rows@) + Seq::<Seq<Seq<char>>>::empty() =~= grid_view(rows@));
                return rows;
            },
            Some(x) => x,
        };
        let row = slice(&c, a, e);
        let cells = extract_cells_exec(&row);
        let ghost before = grid_view(rows@);
        let ghost cv = views(cells@);
        if cells.len() > 0 {
            rows.push(cells);
            assert(grid_view(rows@) =~= before.push(cv));
            assert(before + (seq![cv] + parse_rows_from(c@, e + 5)) =~= grid_view(rows@)
                + parse_rows_from(c@, e + 5));
        } else {
            assert(before + (Seq::<Seq<Seq<char>>>::empty() + parse_rows_from(c@, e + 5))
                =~= grid_view(rows@) + parse_rows_from(c@, e + 5));
        }
        i = e + close.len();
    }
}

/// The largest number of cells in a row (0 for no rows).
pub open spec fn max_cells(rows: Seq<Seq<Seq<char>>>) -> int
    decreases rows.len(),
{
    if rows.len() == 0 {
        0
    } else {
        let m = max_cells(rows.drop_last());
        if rows.last().len() > m {
            rows.last().len() as int
        } else {
            m
        }
    }
}

/// A row padded with empty cells up to `n` cells.
pub open spec fn padded(row: Seq<Seq<char>>, n: int) -> Seq<Seq<char>> {
    row + Seq::new((n - row.len()) as nat, |k: int| Seq::<char>::empty())
}

/// `| a | b |` for a row padded to `n` cells.
pub open spec fn row_line(row: Seq<Seq<char>>, n: int) -> Seq<char> {
    "| "@ + join(padded(row, n), " | "@) + " |"@
}

/// `| --- | --- |` with `n` columns.
pub open spec fn separator_line(n: int) -> Seq<char> {
    "| "@ + join(Seq::new(n as nat, |k: int| "---"@), " | "@) + " |"@
}

/// The lines of a pipe table with `n` columns: the first row, the separator,
/// then the other rows.
pub open spec fn table_lines(rows: Seq<Seq<Seq<char>>>, n: int) -> Seq<Seq<char>>
    decreases rows.len(),
{
    if rows.len() == 0 {
        Seq::empty()
    } else if rows.len() == 1 {
        seq![row_line(rows[0], n), separator_line(n)]
    } else {
        table_lines(rows.drop_last(), n).push(row_line(rows.last(), n))
    }
}

/// A pipe table of `r > 0` rows has `r + 1` lines: the first row, the
/// separator (once), then each further row in order.
pub proof fn lemma_table_lines_shape(rows: Seq<Seq<Seq<char>>>, n: int)
    ensures
        rows.len() == 0 ==> table_lines(rows, n).len() == 0,
        rows.len() > 0 ==> {
            &&& table_lines(rows, n).len() == rows.len() + 1
            &&& table_lines(rows, n)[0] == row_line(rows[0], n)
            &&& table_lines(rows, n)[1] == separator_line(n)
            &&& forall|k: int|
                1 <= k < rows.len() ==> #[trigger] table_lines(rows, n)[k + 1] == row_line(
                    rows[k],
                    n,
                )
        },
    decreases rows.len(),
{
    if rows.len() > 1 {
        let prev = rows.drop_last();
        lemma_table_lines_shape(prev, n);
        let lines = table_lines(rows, n);
        assert(lines == table_lines(prev, n).push(row_line(rows.last(), n)));
        assert forall|k: int| 1 <= k < rows.len() implies #[trigger] lines[k + 1] == row_line(
            rows[k],
            n,
        ) by {
            if k < rows.len() - 1 {
                assert(table_lines(prev, n)[k + 1] == row_line(prev[k], n));
            }
        }
    }
}

/// The Markdown pipe table for the given rows.
pub open spec fn render_pipe_table(rows: Seq<Seq<Seq<char>>>) -> Seq<char> {
    join(table_lines(rows, max_cells(rows)), "\n"@)
}

fn max_cells_exec(rows: &Vec<Vec<Vec<char>>>) -> (m: usize)
    ensures
        m == max_cells(grid_view(rows@)),
{
    let mut m: usize = 0;
    let mut k: usize = 0;
    while k < rows.len()
        invariant
            k <= rows.len(),
            m == max_cells(grid_view(rows@).take(k as int)),
        decreases rows.len() - k,
    {
        assert(grid_view(rows@).take(k + 1).drop_last() =~= grid_view(rows@).take(k as int));
        if rows[k].len() > m {
            m = rows[k].len();
        }
        k = k + 1;
    }
    assert(grid_view(rows@).take(rows.len() as int) =~= grid_view(rows@));
    m
}

fn row_line_exec(row: &Vec<Vec<char>>, n: usize) -> (line: Vec<char>)
    requires
        row.len() <= n,
    ensures
        line@ == row_line(views(row@), n as int),
{
    let mut cells: Vec<Vec<char>> = Vec::new();
    let mut k: usize = 0;
    while k < row.len()
        invariant
            k <= row.len(),
            views(cells@) == views(row@).take(k as int),
        decreases row.len() - k,
    {
        let c = slice(&row[k], 0, row[k].len());
        assert(c@ =~= row@[k as int]@);
        let ghost before = views(cells@);
        cells.push(c);
        assert(views(cells@) =~= before.push(c@));
        assert(views(row@).take(k + 1) =~= views(row@).take(k as int).push(row@[k as int]@));
        assert(views(cells@) =~= views(row@).take(k + 1));
        k = k + 1;
    }
    while k < n
        invariant
            row.len() <= k <= n,
            views(cells@) == views(row@) + Seq::new((k - row.len()) as nat, |j: int| Seq::<char>::empty()),
        decreases n - k,
    {
        let ghost before = views(cells@);
        let empty: Vec<char> = Vec::new();
        cells.push(empty);
        assert(views(cells@) =~= before.push(Seq::<char>::empty()));
        assert(views(cells@) =~= views(row@) + Seq::new((k + 1 - row.len()) as nat, |j: int| Seq::<char>::empty()));
        k = k + 1;
    }
    assert(views(cells@) =~= padded(views(row@), n as int));
    let mut line = chars_of("| ");
    append_all(&mut line, &join_exec(&cells, &chars_of(" | ")));
    append_all(&mut line, &chars_of(" |"));
    line
}

fn separator_line_exec(n: usize) -> (line: Vec<char>)
    ensures
        line@ == separator_line(n as int),
{
    let mut cells: Vec<Vec<char>> = Vec::new();
    let mut k: usize = 0;
    while k < n
        invariant
            k <= n,
            views(cells@) == Seq::new(k as nat, |j: int| "---"@),
        decreases n - k,
    {
        let ghost before = views(cells@);
        let dash = chars_of("---");
        cells.push(dash);
        assert(views(cells@) =~= before.push("---"@));
        assert(views(cells@) =~= Seq::new((k + 1) as nat, |j: int| "---"@));
        k = k + 1;
    }
    let mut line = chars_of("| ");
    append_all(&mut line, &join_exec(&cells, &chars_of(" | ")));
    append_all(&mut line, &chars_of(" |"));
    line
}

fn render_pipe_table_exec(rows: &Vec<Vec<Vec<char>>>) -> (out: Vec<char>)
    ensures
        out@ == render_pipe_table(grid_view(rows@)),
{
    let n = max_cells_exec(rows);
    proof {
        lemma_max_cells(grid_view(rows@));
    }
    let mut lines: Vec<Vec<char>> = Vec::new();
    let mut k: usize = 0;
    while k < rows.len()
        invariant
            k <= rows.len(),
            n == max_cells(grid_view(rows@)),
            forall|j: int| 0 <= j < rows.len() ==> grid_view(rows@)[j].len() <= n,
            views(lines@) == table_lines(grid_view(rows@).take(k as int), n as int),
        decreases rows.len() - k,
    {
        assert(grid_view(rows@).take(k + 1).drop_last() =~= grid_view(rows@).take(k as int));
        assert(grid_view(rows@)[k as int].len() <= n);
        let line = row_line_exec(&rows[k], n);
        let ghost before = views(lines@);
        let ghost line_v = line@;
        lines.push(line);
        assert(views(lines@) =~= before.push(line_v));
        if k == 0 {
            let sep = separator_line_exec(n);
            let ghost mid = views(lines@);
            let ghost sep_v = sep@;
            lines.push(sep);
            assert(views(lines@) =~= mid.push(sep_v));
            assert(views(lines@) =~= seq![line_v, sep_v]);
        }
        k = k + 1;
    }
    assert(grid_view(rows@).take(rows.len() as int) =~= grid_view(rows@));
    join_exec(&lines, &chars_of("\n"))
}

/// No row has more cells than `max_cells` counts.
pub proof fn lemma_max_cells(rows: Seq<Seq<Seq<char>>>)
    ensures
        forall|j: int| 0 <= j < rows.len() ==> rows[j].len() <= max_cells(rows),
        max_cells(rows) >= 0,
    decreases rows.len(),
{
    if rows.len() > 0 {
        lemma_max_cells(rows.drop_last());
        assert forall|j: int| 0 <= j < rows.len() implies rows[j].len() <= max_cells(rows) by {
            if j < rows.len() - 1 {
                assert(rows[j] == rows.drop_last()[j]);
            }
        }
    }
}

/// Text from `i` on with each `<table>...</table>` replaced by its pipe table
/// (or by nothing when it has no rows); an unclosed `<table>` is kept.
pub open spec fn convert_tables_from(s: Seq<char>, i: int) -> Seq<char>
    decreases s.len() - i,
{
    match find_from(s, "<table>"@, i) {
        None => s.subrange(i, s.len() as int),
        Some(ts) => s.subrange(i, ts) + match find_from(s, "</table>"@, ts) {
            None => s.subrange(ts, s.len() as int),
            Some(te) => {
                let rows = parse_rows(s.subrange(ts + "<table>"@.len(), te));
                let next = te + "</table>"@.len();
                if 0 <= i <= ts && next <= s.len() && i < next {
                    (if rows.len() > 0 {
                        render_pipe_table(rows)
                    } else {
                        Seq::empty()
                    }) + convert_tables_from(s, next)
                } else {
                    s.subrange(ts, s.len() as int)
                }
            },
        },
    }
}

pub open spec fn convert_tables(s: Seq<char>) -> Seq<char> {
    convert_tables_from(s, 0)
}

/// Converting `x + b` from `x.len() + i` is converting `b` from `i`.
proof fn lemma_convert_tables_shift(x: Seq<char>, b: Seq<char>, i: int)
    requires
        0 <= i <= b.len(),
    ensures
        convert_tables_from(x + b, x.len() + i) == convert_tables_from(b, i),
    decreases b.len() - i,
{
    reveal_strlit("<table>");
    reveal_strlit("</table>");
    let s = x + b;
    let n = x.len() as int;
    lemma_find_from_shift(x, b, "<table>"@, i);
    crate::text::lemma_find_from(b, "<table>"@, i);
    match find_from(b, "<table>"@, i) {
        None => {
            assert(s.subrange(n + i, s.len() as int) =~= b.subrange(i, b.len() as int));
        },
        Some(ts) => {
            assert(s.subrange(n + i, n + ts) =~= b.subrange(i, ts));
            lemma_find_from_shift(x, b, "</table>"@, ts);
            crate::text::lemma_find_from(b, "</table>"@, ts);
            match find_from(b, "</table>"@, ts) {
                None => {
                    assert(s.subrange(n + ts, s.len() as int) =~= b.subrange(ts, b.len() as int));
                },
                Some(te) => {
                    assert(s.subrange(n + ts, s.len() as int) =~= b.subrange(ts, b.len() as int));
                    lemma_close_after_open(b, ts, "<table>"@, "</table>"@);
                    assert(s.subrange(n + ts + 7, n + te) =~= b.subrange(ts + 7, te));
                    let next = te + 8;
                    if i < next && next <= b.len() {
                        lemma_convert_tables_shift(x, b, next);
                    }
                },
            }
        },
    }
}

/// The first table of a text is converted in place and the conversion goes
/// on after it: in `a + "<table>" + t + "</table>" + b`, where `a` holds no
/// `<table>` and `t` no `</table>`, `a` is kept, the table becomes the pipe
/// table of its rows (nothing when it has none), and `b` is converted.
pub proof fn lemma_convert_tables_first(a: Seq<char>, t: Seq<char>, b: Seq<char>)
    requires
        !contains(a, "<table>"@),
        !contains(t, "</table>"@),
    ensures
        convert_tables(a + "<table>"@ + t + "</table>"@ + b) == a + (if parse_rows(t).len() > 0 {
            render_pipe_table(parse_rows(t))
        } else {
            Seq::empty()
        }) + convert_tables(b),
{
    reveal_strlit("<table>");
    reveal_strlit("</table>");
    let open = "<table>"@;
    let close = "</table>"@;
    let s = a + open + t + close + b;
    lemma_first_block(a, open, t, close, b);
    let na = a.len() as int;
    let te = na + 7 + t.len();
    assert(s.subrange(0, na) =~= a);
    assert(s.subrange(na + 7, te) =~= t);
    let x = a + open + t + close;
    assert(s =~= x + b);
    lemma_convert_tables_shift(x, b, 0);
}

/// A `<table>` with no `</table>` after it is kept, with all the text after
/// it: in `a + "<table>" + t`, where `a` holds no `<table>` and `t` no
/// `</table>`, nothing changes.
pub proof fn lemma_convert_tables_unclosed(a: Seq<char>, t: Seq<char>)
    requires
        !contains(a, "<table>"@),
        !contains(t, "</table>"@),
    ensures
        convert_tables(a + "<table>"@ + t) == a + "<table>"@ + t,
{
    reveal_strlit("<table>");
    reveal_strlit("</table>");
    let open = "<table>"@;
    let close = "</table>"@;
    let s = a + open + t;
    lemma_first_match(a, open, t);
    let y = open + t;
    assert(s =~= a + y);
    lemma_find_from_shift(a, y, close, 0);
    lemma_no_close_in_open(open, close, t);
    crate::text::lemma_find_from_skip(y, close, 0, 7);
    lemma_find_from_shift(open, t, close, 0);
    crate::text::lemma_find_from(t, close, 0);
    assert(s.subrange(0, a.len() as int) + s.subrange(a.len() as int, s.len() as int) =~= s);
}

pub fn convert_tables_exec(s: &Vec<char>) -> (out: Vec<char>)
    ensures
        out@ == convert_tables(s@),
{
    let open = chars_of("<table>");
    let close = chars_of("</table>");
    proof {
        reveal_strlit("<table>");
        reveal_strlit("</table>");
    }
    let mut out: Vec<char> = Vec::new();
    let mut i: usize = 0;
    loop
        invariant
            i <= s.len(),
            open@ == "<table>"@,
            close@ == "</table>"@,
            open@.len() == 7,
            close@.len() == 8,
            out@ + convert_tables_from(s@, i as int) == convert_tables(s@),
        decreases s.len() - i,
    {
        let ts = match search(s, &open, i) {
            None => {
                append_range(&mut out, s, i, s.len());
                return out;
            },
            Some(x) => x,
        };
        let ghost before = out@;
        append_range(&mut out, s, i, ts);
        match search(s, &close, ts) {
            None => {
                append_range(&mut out, s, ts, s.len());
                assert(out@ =~= before + (s@.subrange(i as int, ts as int) + s@.subrange(
                    ts as int,
                    s.len() as int,
                )));
                return out;
            },
            Some(te) => {
                proof {
                    reveal_strlit("<table>");
                    reveal_strlit("</table>");
                    lemma_close_after_open(s@, ts as int, open@, close@);
                }
                let body = slice(s, ts + open.len(), te);
                let rows = parse_rows_exec(body);
                let ghost mid = out@;
                if rows.len() > 0 {
                    let table = render_pipe_table_exec(&rows);
                    append_all(&mut out, &table);
                } else {
                    assert(out@ =~= mid + Seq::<char>::empty());
                }
                let next = te + close.len();
                assert(out@ + convert_tables_from(s@, next as int) =~= before + (s@.subrange(
                    i as int,
                    ts as int,
                ) + ((if grid_view(rows@).len() > 0 {
                    render_pipe_table(grid_view(rows@))
                } else {
                    Seq::<char>::empty()
                }) + convert_tables_from(s@, next as int))));
                i = next;
            },
        }
    }
}

} // verus!
