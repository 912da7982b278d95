//! Cleaning of the Markdown that Notion's API returns: its custom tags and
//! attributes are removed or converted, code is left alone.
use vstd::prelude::*;

use crate::blocks::{
    strip_callouts, strip_callouts_exec, strip_columns, strip_columns_exec, strip_details,
    strip_details_exec, strip_spans, strip_spans_exec, strip_wrapper, strip_wrapper_exec,
};
use crate::tables::{convert_tables, convert_tables_exec};
use crate::tags::{replace_tag, replace_tag_exec, TagKind};
use crate::text::{
    append_all, append_range, chars_of, contains, contains_exec, find, find_from, join, matches_at,
    matches_at_exec, replace_all, replace_exec, rfind, rsearch, search, slice, to_string,
    trim_end, trim_end_bound,
};

verus! {

// ---------------------------------------------------------------------------
// {color="..."} attributes at the ends of lines
// ---------------------------------------------------------------------------

/// A line ending (before trailing whitespace) in a `{...}` group that holds
/// `=` loses that group and the whitespace before it; other lines are kept.
pub open spec fn strip_curly_line(line: Seq<char>) -> Seq<char> {
    let t = trim_end(line);
    match rfind(t, seq!['{']) {
        Some(b) => {
            let after = t.subrange(b, t.len() as int);
            if after.len() > 0 && after.last() == '}' && contains(after, seq!['=']) {
                trim_end(t.subrange(0, b))
            } else {
                line
            }
        },
        None => line,
    }
}

/// The lines of `s` from index `i` on (each ending before a newline or at the
/// end of `s`), each through [`strip_curly_line`], joined with newlines.
pub open spec fn strip_curly_from(s: Seq<char>, i: int) -> Seq<char>
    decreases s.len() - i,
{
    match find_from(s, seq!['\n'], i) {
        None => strip_curly_line(s.subrange(i, s.len() as int)),
        Some(j) => if 0 <= i <= j < s.len() {
            strip_curly_line(s.subrange(i, j)) + seq!['\n'] + strip_curly_from(s, j + 1)
        } else {
            Seq::empty()
        },
    }
}

/// Text holding a `{` has each of its lines cleaned of a trailing
/// `{...=...}` group; every line is kept, empty ones included.
pub open spec fn strip_curly(s: Seq<char>) -> Seq<char> {
    if !contains(s, seq!['{']) {
        s
    } else {
        strip_curly_from(s, 0)
    }
}

#[verifier::spinoff_prover]
#[verifier::rlimit(60)]
proof fn lemma_strip_curly_from_lines(s: Seq<char>, i: int, ls: Seq<Seq<char>>)
    requires
        0 <= i <= s.len(),
        ls.len() >= 1,
        join(ls, seq!['\n']) == s.subrange(i, s.len() as int),
        forall|k: int, j: int| 0 <= k < ls.len() && 0 <= j < ls[k].len() ==> #[trigger] ls[k][j] != '\n',
    ensures
        strip_curly_from(s, i) == join(ls.map_values(|l: Seq<char>| strip_curly_line(l)), seq!['\n']),
    decreases ls.len(),
{
    let nl = seq!['\n'];
    let f = |l: Seq<char>| strip_curly_line(l);
    let n = s.len() as int;
    let l0 = ls[0];
    let j = i + l0.len();
    crate::text::lemma_find_from(s, nl, i);
    if ls.len() == 1 {
        assert(s.subrange(i, n) == l0);
        if let Some(m) = find_from(s, nl, i) {
            assert(s.subrange(m, m + 1)[0] == s[m]);
            assert(s[m] == s.subrange(i, n)[m - i]);
            assert(l0[m - i] != '\n');
        }
        assert(ls.map_values(f).len() == 1);
    } else {
        crate::text::lemma_join_front(ls, nl);
        let rest = ls.drop_first();
        assert(s.subrange(i, n) == l0 + nl + join(rest, nl));
        assert forall|m: int| i <= m < j implies !matches_at(s, m, nl) by {
            if matches_at(s, m, nl) {
                assert(s.subrange(m, m + 1)[0] == s[m]);
                assert(s[m] == s.subrange(i, n)[m - i]);
                assert(l0[m - i] != '\n');
            }
        }
        assert(s[j] == s.subrange(i, n)[j - i]);
        assert(s.subrange(j, j + 1) =~= nl);
        crate::text::lemma_find_from_skip(s, nl, i, j);
        assert(s.subrange(i, j) =~= l0);
        let whole = l0 + nl + join(rest, nl);
        assert(s.subrange(j + 1, n) =~= s.subrange(i, n).subrange(j + 1 - i, n - i));
        assert(whole.subrange((l0.len() + 1) as int, whole.len() as int) =~= join(rest, nl));
        assert(s.subrange(j + 1, n) =~= join(rest, nl));
        assert forall|k: int, m: int| 0 <= k < rest.len() && 0 <= m < rest[k].len() implies #[trigger] rest[k][m]
            != '\n' by {
            assert(rest[k] == ls[k + 1]);
        }
        lemma_strip_curly_from_lines(s, j + 1, rest);
        let mapped = ls.map_values(f);
        crate::text::lemma_join_front(mapped, nl);
        assert(mapped.drop_first() =~= rest.map_values(f));
    }
}

/// Stripping attributes works line by line: for a text holding a `{`, split
/// into lines (parts without newlines that joined with newlines give the
/// text), the result is each line through [`strip_curly_line`], joined with
/// newlines again; every line is kept.
pub proof fn lemma_strip_curly_by_lines(s: Seq<char>, ls: Seq<Seq<char>>)
    requires
        contains(s, seq!['{']),
        join(ls, seq!['\n']) == s,
        forall|k: int, j: int| 0 <= k < ls.len() && 0 <= j < ls[k].len() ==> #[trigger] ls[k][j] != '\n',
    ensures
        strip_curly(s) == join(ls.map_values(|l: Seq<char>| strip_curly_line(l)), seq!['\n']),
{
    crate::text::lemma_find_from(s, seq!['{'], 0);
    assert(s.len() > 0);
    assert(s.subrange(0, s.len() as int) =~= s);
    lemma_strip_curly_from_lines(s, 0, ls);
}

fn strip_curly_line_exec(s: &Vec<char>, lo: usize, hi: usize) -> (out: Vec<char>)
    requires
        lo <= hi <= s.len(),
    ensures
        out@ == strip_curly_line(s@.subrange(lo as int, hi as int)),
{
    let e = trim_end_bound(s, lo, hi);
    let t = slice(s, lo, e);
    let brace = vec!['{'];
    assert(brace@ =~= seq!['{']);
    match rsearch(&t, &brace) {
        Some(b) => {
            let after = slice(&t, b, t.len());
            let eq = vec!['='];
            assert(eq@ =~= seq!['=']);
            if after.len() > 0 && after[after.len() - 1] == '}' && contains_exec(&after, &eq) {
                let k = trim_end_bound(&t, 0, b);
                slice(&t, 0, k)
            } else {
                slice(s, lo, hi)
            }
        },
        None => slice(s, lo, hi),
    }
}

pub fn strip_curly_exec(s: Vec<char>) -> (out: Vec<char>)
    ensures
        out@ == strip_curly(s@),
{
    let brace = vec!['{'];
    assert(brace@ =~= seq!['{']);
    if !contains_exec(&s, &brace) {
        return s;
    }
    let nl = vec!['\n'];
    assert(nl@ =~= seq!['\n']);
    let mut acc: Vec<char> = Vec::new();
    let mut i: usize = 0;
    assert(acc@ + strip_curly_from(s@, 0) =~= strip_curly_from(s@, 0));
    loop
        invariant
            i <= s.len(),
            nl@ == seq!['\n'],
            contains(s@, seq!['{']),
            acc@ + strip_curly_from(s@, i as int) == strip_curly(s@),
        decreases s.len() - i,
    {
        match search(&s, &nl, i) {
            None => {
                let line = strip_curly_line_exec(&s, i, s.len());
                let ghost before = acc@;
                append_all(&mut acc, &line);
                assert(acc@ =~= before + line@);
                return acc;
            },
            Some(j) => {
                let line = strip_curly_line_exec(&s, i, j);
                let ghost before = acc@;
                let ghost rest = strip_curly_from(s@, j + 1);
                append_all(&mut acc, &line);
                acc.push('\n');
                assert(acc@ + rest =~= before + (line@ + seq!['\n'] + rest));
                i = j + 1;
            },
        }
    }
}

// ---------------------------------------------------------------------------
// Presigned S3 query strings in image links
// ---------------------------------------------------------------------------

/// From `from` on, each `![...](url)` whose url holds `?X-Amz-` loses the url
/// from that marker to the closing parenthesis.
pub open spec fn strip_image_signatures_from(s: Seq<char>, from: int) -> Seq<char>
    decreases s.len() - from,
{
    match find_from(s, seq!['!', '['], from) {
        None => s,
        Some(a) => if 0 <= from <= a && a + 2 <= s.len() {
            match find_from(s, seq!['('], a) {
                None => strip_image_signatures_from(s, a + 2),
                Some(p) => if a <= p < s.len() {
                    match find_from(s, seq![')'], p) {
                        None => strip_image_signatures_from(s, p + 1),
                        Some(c) => if p < c < s.len() {
                            match find(s.subrange(p + 1, c), "?X-Amz-"@) {
                                Some(q) => if 0 <= q <= c - (p + 1) {
                                    strip_image_signatures_from(
                                        s.subrange(0, p + 1 + q) + s.subrange(c, s.len() as int),
                                        p + 1 + q + 1,
                                    )
                                } else {
                                    s
                                },
                                None => strip_image_signatures_from(s, c + 1),
                            }
                        } else {
                            s
                        },
                    }
                } else {
                    s
                },
            }
        } else {
            s
        },
    }
}

pub open spec fn strip_image_signatures(s: Seq<char>) -> Seq<char> {
    strip_image_signatures_from(s, 0)
}

#[verifier::spinoff_prover]
#[verifier::rlimit(60)]
proof fn lemma_strip_images_shift(x: Seq<char>, b: Seq<char>, i: int)
    requires
        0 <= i <= b.len(),
    ensures
        strip_image_signatures_from(x + b, x.len() + i) == x + strip_image_signatures_from(b, i),
    decreases b.len() - i,
{
    let s = x + b;
    let n = x.len() as int;
    let bang = seq!['!', '['];
    crate::text::lemma_find_from_shift(x, b, bang, i);
    crate::text::lemma_find_from(b, bang, i);
    match find_from(b, bang, i) {
        None => {
            assert(s =~= x + b);
        },
        Some(a) => {
            crate::text::lemma_find_from_shift(x, b, seq!['('], a);
            crate::text::lemma_find_from(b, seq!['('], a);
            match find_from(b, seq!['('], a) {
                None => lemma_strip_images_shift(x, b, a + 2),
                Some(p) => {
                    crate::text::lemma_find_from_shift(x, b, seq![')'], p);
                    crate::text::lemma_find_from(b, seq![')'], p);
                    match find_from(b, seq![')'], p) {
                        None => lemma_strip_images_shift(x, b, p + 1),
                        Some(c) => {
                            if p < c {
                                assert(s.subrange(n + p + 1, n + c) =~= b.subrange(p + 1, c));
                                let u = b.subrange(p + 1, c);
                                crate::text::lemma_find_from(u, "?X-Amz-"@, 0);
                                match find(u, "?X-Amz-"@) {
                                    Some(q) => {
                                        let b2 = b.subrange(0, p + 1 + q) + b.subrange(c, b.len() as int);
                                        assert(s.subrange(0, n + p + 1 + q) + s.subrange(n + c, s.len() as int)
                                            =~= x + b2);
                                        lemma_strip_images_shift(x, b2, p + 1 + q + 1);
                                    },
                                    None => lemma_strip_images_shift(x, b, c + 1),
                                }
                            } else {
                                assert(false);
                            }
                        },
                    }
                },
            }
        },
    }
}

/// The URL of an image link without its signature: cut before the first
/// `?X-Amz-`, or whole when it holds none.
pub open spec fn unsigned_url(u: Seq<char>) -> Seq<char> {
    match find(u, "?X-Amz-"@) {
        Some(q) => u.subrange(0, q),
        None => u,
    }
}

/// The first image link of a text loses its signature and the stripping goes
/// on after it: in `a + "![" + m + "(" + u + ")" + b`, where `a` holds no
/// `![`, `m` no `(` and `u` no `)`, the URL becomes [`unsigned_url`] and `b`
/// is stripped in turn.
#[verifier::spinoff_prover]
#[verifier::rlimit(60)]
pub proof fn lemma_strip_image_signatures_first(a: Seq<char>, m: Seq<char>, u: Seq<char>, b: Seq<char>)
    requires
        !contains(a, seq!['!', '[']),
        forall|j: int| 0 <= j < m.len() ==> #[trigger] m[j] != '(',
        forall|j: int| 0 <= j < u.len() ==> #[trigger] u[j] != ')',
    ensures
        strip_image_signatures(a + seq!['!', '['] + m + seq!['('] + u + seq![')'] + b) == a + seq![
            '!',
            '[',
        ] + m + seq!['('] + unsigned_url(u) + seq![')'] + strip_image_signatures(b),
{
    let bang = seq!['!', '['];
    let s = a + bang + m + seq!['('] + u + seq![')'] + b;
    let na = a.len() as int;
    let nm = m.len() as int;
    let nu = u.len() as int;
    let p = na + 2 + nm;
    let c = p + 1 + nu;
    assert forall|k: int| 0 <= k < na implies #[trigger] s[k] == a[k] by {}
    assert(s[na] == '!' && s[na + 1] == '[');
    assert forall|k: int| 0 <= k < nm implies #[trigger] s[na + 2 + k] == m[k] by {}
    assert(s[p] == '(');
    assert forall|k: int| 0 <= k < nu implies #[trigger] s[p + 1 + k] == u[k] by {}
    assert(s[c] == ')');
    crate::text::lemma_find_from(a, bang, 0);
    assert forall|j: int| 0 <= j < na implies !matches_at(s, j, bang) by {
        if matches_at(s, j, bang) {
            assert(s.subrange(j, j + 2)[0] == s[j]);
            assert(s.subrange(j, j + 2)[1] == s[j + 1]);
            if j + 2 <= na {
                assert(a.subrange(j, j + 2) =~= s.subrange(j, j + 2));
                assert(matches_at(a, j, bang));
            }
        }
    }
    assert(s.subrange(na, na + 2) =~= bang);
    crate::text::lemma_find_from_skip(s, bang, 0, na);
    assert forall|j: int| na <= j < p implies !matches_at(s, j, seq!['(']) by {
        if matches_at(s, j, seq!['(']) {
            assert(s.subrange(j, j + 1)[0] == s[j]);
            if j >= na + 2 {
                assert(s[na + 2 + (j - na - 2)] == m[j - na - 2]);
            }
        }
    }
    assert(s.subrange(p, p + 1) =~= seq!['(']);
    crate::text::lemma_find_from_skip(s, seq!['('], na, p);
    assert forall|j: int| p <= j < c implies !matches_at(s, j, seq![')']) by {
        if matches_at(s, j, seq![')']) {
            assert(s.subrange(j, j + 1)[0] == s[j]);
            if j > p {
                assert(s[p + 1 + (j - p - 1)] == u[j - p - 1]);
            }
        }
    }
    assert(s.subrange(c, c + 1) =~= seq![')']);
    crate::text::lemma_find_from_skip(s, seq![')'], p, c);
    assert(s.subrange(p + 1, c) =~= u);
    crate::text::lemma_find_from(u, "?X-Amz-"@, 0);
    match find(u, "?X-Amz-"@) {
        Some(q) => {
            let x2 = a + bang + m + seq!['('] + u.subrange(0, q) + seq![')'];
            assert(s.subrange(0, p + 1 + q) + s.subrange(c, s.len() as int) =~= x2 + b);
            lemma_strip_images_shift(x2, b, 0);
        },
        None => {
            let x = a + bang + m + seq!['('] + u + seq![')'];
            assert(s =~= x + b);
            lemma_strip_images_shift(x, b, 0);
        },
    }
}

pub fn strip_image_signatures_exec(input: Vec<char>) -> (out: Vec<char>)
    ensures
        out@ == strip_image_signatures(input@),
{
    let bang = vec!['!', '['];
    let open = vec!['('];
    let close = vec![')'];
    let marker = chars_of("?X-Amz-");
    assert(bang@ =~= seq!['!', '[']);
    assert(open@ =~= seq!['(']);
    assert(close@ =~= seq![')']);
    let mut s = input;
    let mut from: usize = 0;
    loop
        invariant
            from <= s.len(),
            bang@ == seq!['!', '['],
            open@ == seq!['('],
            close@ == seq![')'],
            marker@ == "?X-Amz-"@,
            strip_image_signatures_from(s@, from as int) == strip_image_signatures(input@),
        decreases s.len() - from,
    {
        let a = match search(&s, &bang, from) {
            None => return s,
            Some(x) => x,
        };
        let p = match search(&s, &open, a) {
            None => {
                from = a + 2;
                continue;
            },
            Some(x) => x,
        };
        let c = match search(&s, &close, p) {
            None => {
                from = p + 1;
                continue;
            },
            Some(x) => x,
        };
        assert(s@[p as int] == '(' && s@[c as int] == ')') by {
            assert(s@.subrange(p as int, p + 1)[0] == '(');
            assert(s@.subrange(c as int, c + 1)[0] == ')');
        }
        let url = slice(&s, p + 1, c);
        match search(&url, &marker, 0) {
            Some(q) => {
                let ce = p + 1 + q;
                let mut next = slice(&s, 0, ce);
                append_range(&mut next, &s, c, s.len());
                s = next;
                from = ce + 1;
            },
            None => {
                from = c + 1;
            },
        }
    }
}

// ---------------------------------------------------------------------------
// Blank lines
// ---------------------------------------------------------------------------

/// `s` from `i` on, `k` newlines having just been seen, with every newline
/// after the third in a row dropped.
pub open spec fn normalize_blank_lines_from(s: Seq<char>, i: int, k: int) -> Seq<char>
    decreases s.len() - i,
{
    if i < 0 || i >= s.len() {
        Seq::empty()
    } else if s[i] == '\n' {
        if k + 1 <= 3 {
            seq!['\n'] + normalize_blank_lines_from(s, i + 1, k + 1)
        } else {
            normalize_blank_lines_from(s, i + 1, k + 1)
        }
    } else {
        seq![s[i]] + normalize_blank_lines_from(s, i + 1, 0)
    }
}

/// At most three newlines in a row: runs of blank lines shrink to two.
pub open spec fn normalize_blank_lines(s: Seq<char>) -> Seq<char> {
    normalize_blank_lines_from(s, 0, 0)
}

pub fn normalize_blank_lines_exec(s: &Vec<char>) -> (out: Vec<char>)
    ensures
        out@ == normalize_blank_lines(s@),
{
    let mut out: Vec<char> = Vec::new();
    let mut i: usize = 0;
    let mut k: usize = 0;
    while i < s.len()
        invariant
            i <= s.len(),
            k <= i,
            out@ + normalize_blank_lines_from(s@, i as int, k as int) == normalize_blank_lines(s@),
        decreases s.len() - i,
    {
        let ghost before = out@;
        if s[i] == '\n' {
            k = k + 1;
            if k <= 3 {
                out.push('\n');
                assert(before + (seq!['\n'] + normalize_blank_lines_from(s@, i + 1, k as int))
                    =~= out@ + normalize_blank_lines_from(s@, i + 1, k as int));
            }
        } else {
            k = 0;
            out.push(s[i]);
            assert(before + (seq![s@[i as int]] + normalize_blank_lines_from(s@, i + 1, 0))
                =~= out@ + normalize_blank_lines_from(s@, i + 1, 0));
        }
        i = i + 1;
    }
    assert(out@ + Seq::<char>::empty() =~= out@);
    out
}

// ---------------------------------------------------------------------------
// The text pipeline
// ---------------------------------------------------------------------------

/// Page and user mentions and file tags rewritten.
pub open spec fn convert_mentions(s: Seq<char>) -> Option<Seq<char>> {
    match replace_tag(TagKind::MentionPage, s) {
        None => None,
        Some(a) => match replace_tag(TagKind::MentionUser, a) {
            None => None,
            Some(b) => replace_tag(TagKind::File, b),
        },
    }
}

/// Checkboxes, bookmarks and date mentions rewritten.
pub open spec fn convert_late_tags(s: Seq<char>) -> Option<Seq<char>> {
    match replace_tag(TagKind::Checkbox, s) {
        None => None,
        Some(a) => match replace_tag(TagKind::Bookmark, a) {
            None => None,
            Some(b) => replace_tag(TagKind::MentionDate, b),
        },
    }
}

/// Empty blocks, dividers and line breaks converted.
pub open spec fn convert_simple_tags(s: Seq<char>) -> Seq<char> {
    replace_all(
        replace_all(
            replace_all(replace_all(s, "<empty-block/>"@, "\n\n"@), "<divider/>"@, "---"@),
            "<br/>"@,
            "\n"@,
        ),
        "<br>"@,
        "\n"@,
    )
}

/// One text (non-code) piece through every conversion, in order: tables,
/// mentions, spans, empty blocks, dividers, line breaks, trailing attributes,
/// image signatures, toggles, callouts, synced blocks, equations, columns,
/// checkboxes, bookmarks and date mentions. `None` where a step cannot slice
/// its tag.
#[verifier::opaque]
pub open spec fn sanitize_text(t: Seq<char>) -> Option<Seq<char>> {
    match convert_mentions(convert_tables(t)) {
        None => None,
        Some(m) => {
            let c = strip_image_signatures(strip_curly(convert_simple_tags(strip_spans(m))));
            match strip_details(c) {
                None => None,
                Some(d) => {
                    let e = strip_wrapper(strip_callouts(d), "synced-block"@);
                    match replace_tag(TagKind::Equation, e) {
                        None => None,
                        Some(f) => convert_late_tags(strip_columns(f)),
                    }
                },
            }
        },
    }
}

fn sanitize_text_exec(s: &Vec<char>, lo: usize, hi: usize) -> (r: Option<Vec<char>>)
    requires
        lo <= hi <= s.len(),
    ensures
        r matches Some(v) ==> sanitize_text(s@.subrange(lo as int, hi as int)) == Some(v@),
        r is None ==> sanitize_text(s@.subrange(lo as int, hi as int)) is None,
{
    reveal(sanitize_text);
    let t = slice(s, lo, hi);
    let a = convert_tables_exec(&t);
    let a = replace_tag_exec(&TagKind::MentionPage, a)?;
    let a = replace_tag_exec(&TagKind::MentionUser, a)?;
    let a = replace_tag_exec(&TagKind::File, a)?;
    let b = strip_spans_exec(a);
    proof {
        reveal_strlit("<empty-block/>");
        reveal_strlit("<divider/>");
        reveal_strlit("<br/>");
        reveal_strlit("<br>");
    }
    let b = replace_exec(&b, &chars_of("<empty-block/>"), &chars_of("\n\n"));
    let b = replace_exec(&b, &chars_of("<divider/>"), &chars_of("---"));
    let b = replace_exec(&b, &chars_of("<br/>"), &chars_of("\n"));
    let b = replace_exec(&b, &chars_of("<br>"), &chars_of("\n"));
    let c = strip_curly_exec(b);
    let c = strip_image_signatures_exec(c);
    let d = strip_details_exec(c)?;
    let e = strip_callouts_exec(d);
    let e = strip_wrapper_exec(e, &chars_of("synced-block"));
    let f = replace_tag_exec(&TagKind::Equation, e)?;
    let g = strip_columns_exec(&f);
    let g = replace_tag_exec(&TagKind::Checkbox, g)?;
    let g = replace_tag_exec(&TagKind::Bookmark, g)?;
    replace_tag_exec(&TagKind::MentionDate, g)
}

// ---------------------------------------------------------------------------
// Code segments
// ---------------------------------------------------------------------------

/// Both present: their concatenation.
pub open spec fn opt_cat(a: Option<Seq<char>>, b: Option<Seq<char>>) -> Option<Seq<char>> {
    match (a, b) {
        (Some(x), Some(y)) => Some(x + y),
        _ => None,
    }
}

/// `s` from `i` on, split into code and text: fenced blocks (from three
/// backticks to the next three, or to the end) and inline code (from a
/// backtick to the next one) are kept as they are, every text piece in
/// between goes through [`sanitize_text`]; a backtick with no partner is a
/// text piece of its own.
pub open spec fn sanitize_segments_from(s: Seq<char>, i: int) -> Option<Seq<char>>
    decreases s.len() - i,
{
    if i < 0 || i >= s.len() {
        Some(Seq::empty())
    } else {
        match find_from(s, seq!['`'], i) {
            None => sanitize_text(s.subrange(i, s.len() as int)),
            Some(pos) => if i <= pos < s.len() {
                let pre = if pos > i {
                    sanitize_text(s.subrange(i, pos))
                } else {
                    Some(Seq::empty())
                };
                opt_cat(
                    pre,
                    if matches_at(s, pos, seq!['`', '`', '`']) {
                        match find_from(s, seq!['`', '`', '`'], pos + 3) {
                            Some(e) => if pos + 3 <= e && e + 3 <= s.len() {
                                opt_cat(
                                    Some(s.subrange(pos, e + 3)),
                                    sanitize_segments_from(s, e + 3),
                                )
                            } else {
                                None
                            },
                            None => Some(s.subrange(pos, s.len() as int)),
                        }
                    } else {
                        match find_from(s, seq!['`'], pos + 1) {
                            Some(e) => if pos + 1 <= e < s.len() {
                                opt_cat(
                                    Some(s.subrange(pos, e + 1)),
                                    sanitize_segments_from(s, e + 1),
                                )
                            } else {
                                None
                            },
                            None => opt_cat(
                                sanitize_text(s.subrange(pos, pos + 1)),
                                sanitize_segments_from(s, pos + 1),
                            ),
                        }
                    },
                )
            } else {
                None
            },
        }
    }
}

/// A piece of Markdown: code kept as it is, or text to convert.
pub enum Segment {
    Code(Seq<char>),
    Text(Seq<char>),
}

/// The characters of a piece.
pub open spec fn segment_chars(g: Segment) -> Seq<char> {
    match g {
        Segment::Code(c) => c,
        Segment::Text(t) => t,
    }
}

/// `s` from `i` on, split into code and text pieces as
/// [`sanitize_segments_from`] splits it: a fenced block (from three
/// backticks to the next three, or to the end), an inline code span (from a
/// backtick to the next one), the text before each, and a backtick with no
/// partner as a text piece of its own.
pub open spec fn code_segments(s: Seq<char>, i: int) -> Seq<Segment>
    decreases s.len() - i,
{
    if i < 0 || i >= s.len() {
        Seq::empty()
    } else {
        match find_from(s, seq!['`'], i) {
            None => seq![Segment::Text(s.subrange(i, s.len() as int))],
            Some(pos) => if i <= pos < s.len() {
                let pre = if pos > i {
                    seq![Segment::Text(s.subrange(i, pos))]
                } else {
                    Seq::empty()
                };
                if matches_at(s, pos, seq!['`', '`', '`']) {
                    match find_from(s, seq!['`', '`', '`'], pos + 3) {
                        Some(e) => if pos + 3 <= e && e + 3 <= s.len() {
                            pre + seq![Segment::Code(s.subrange(pos, e + 3))] + code_segments(
                                s,
                                e + 3,
                            )
                        } else {
                            Seq::empty()
                        },
                        None => pre + seq![Segment::Code(s.subrange(pos, s.len() as int))],
                    }
                } else {
                    match find_from(s, seq!['`'], pos + 1) {
                        Some(e) => if pos + 1 <= e < s.len() {
                            pre + seq![Segment::Code(s.subrange(pos, e + 1))] + code_segments(
                                s,
                                e + 1,
                            )
                        } else {
                            Seq::empty()
                        },
                        None => pre + seq![Segment::Text(s.subrange(pos, pos + 1))]
                            + code_segments(s, pos + 1),
                    }
                }
            } else {
                Seq::empty()
            },
        }
    }
}

/// The pieces' characters, concatenated.
pub open spec fn joined(segs: Seq<Segment>) -> Seq<char>
    decreases segs.len(),
{
    if segs.len() == 0 {
        Seq::empty()
    } else {
        segment_chars(segs[0]) + joined(segs.drop_first())
    }
}

/// The pieces converted (code kept, text through [`sanitize_text`]) and
/// concatenated; `None` where a text piece cannot be converted.
pub open spec fn sanitize_pieces(segs: Seq<Segment>) -> Option<Seq<char>>
    decreases segs.len(),
{
    if segs.len() == 0 {
        Some(Seq::empty())
    } else {
        opt_cat(
            match segs[0] {
                Segment::Code(c) => Some(c),
                Segment::Text(t) => sanitize_text(t),
            },
            sanitize_pieces(segs.drop_first()),
        )
    }
}

/// What a split into pieces promises: each piece is non-empty; a code piece
/// starts with a backtick and ends with one, unless it is the last piece and
/// an unclosed fence; a text piece holds no backtick, unless it is a lone one.
pub open spec fn well_split(segs: Seq<Segment>) -> bool {
    forall|k: int|
        0 <= k < segs.len() ==> {
            &&& segment_chars(#[trigger] segs[k]).len() > 0
            &&& segs[k] matches Segment::Code(c) ==> c[0] == '`' && (c.last() == '`' || (k
                == segs.len() - 1 && matches_at(c, 0, seq!['`', '`', '`'])))
            &&& segs[k] matches Segment::Text(t) ==> t == seq!['`'] || !contains(t, seq!['`'])
        }
}

proof fn lemma_joined_concat(a: Seq<Segment>, b: Seq<Segment>)
    ensures
        joined(a + b) == joined(a) + joined(b),
    decreases a.len(),
{
    if a.len() == 0 {
        assert(a + b =~= b);
        assert(joined(a) + joined(b) =~= joined(b));
    } else {
        assert((a + b).drop_first() =~= a.drop_first() + b);
        assert((a + b)[0] == a[0]);
        lemma_joined_concat(a.drop_first(), b);
        assert(joined(a) + joined(b) =~= segment_chars(a[0]) + (joined(a.drop_first()) + joined(
            b,
        )));
    }
}

proof fn lemma_opt_cat_assoc(x: Option<Seq<char>>, y: Option<Seq<char>>, z: Option<Seq<char>>)
    ensures
        opt_cat(x, opt_cat(y, z)) == opt_cat(opt_cat(x, y), z),
{
    if let (Some(a), Some(b), Some(c)) = (x, y, z) {
        assert(a + (b + c) =~= (a + b) + c);
    }
}

proof fn lemma_pieces_concat(a: Seq<Segment>, b: Seq<Segment>)
    ensures
        sanitize_pieces(a + b) == opt_cat(sanitize_pieces(a), sanitize_pieces(b)),
    decreases a.len(),
{
    if a.len() == 0 {
        assert(a + b =~= b);
        if let Some(y) = sanitize_pieces(b) {
            assert(Seq::<char>::empty() + y =~= y);
        }
    } else {
        assert((a + b).drop_first() =~= a.drop_first() + b);
        assert((a + b)[0] == a[0]);
        lemma_pieces_concat(a.drop_first(), b);
        let first = match a[0] {
            Segment::Code(c) => Some(c),
            Segment::Text(t) => sanitize_text(t),
        };
        lemma_opt_cat_assoc(first, sanitize_pieces(a.drop_first()), sanitize_pieces(b));
    }
}

proof fn lemma_pieces_one(g: Segment)
    ensures
        sanitize_pieces(seq![g]) == match g {
            Segment::Code(c) => Some(c),
            Segment::Text(t) => sanitize_text(t),
        },
        joined(seq![g]) == segment_chars(g),
{
    let one = seq![g];
    assert(one[0] == g);
    assert(one.drop_first() =~= Seq::<Segment>::empty());
    assert(sanitize_pieces(one.drop_first()) == Some(Seq::<char>::empty()));
    assert(joined(one.drop_first()) == Seq::<char>::empty());
    assert(segment_chars(g) + Seq::<char>::empty() =~= segment_chars(g));
    match g {
        Segment::Code(c) => {
            assert(c + Seq::<char>::empty() =~= c);
        },
        Segment::Text(t) => {
            if let Some(x) = sanitize_text(t) {
                assert(x + Seq::<char>::empty() =~= x);
            }
        },
    }
}

proof fn lemma_pieces_three(pre: Seq<Segment>, g: Segment, rest: Seq<Segment>)
    ensures
        sanitize_pieces(pre + seq![g] + rest) == opt_cat(
            sanitize_pieces(pre),
            opt_cat(sanitize_pieces(seq![g]), sanitize_pieces(rest)),
        ),
        joined(pre + seq![g] + rest) == joined(pre) + (segment_chars(g) + joined(rest)),
{
    lemma_pieces_concat(pre + seq![g], rest);
    lemma_pieces_concat(pre, seq![g]);
    lemma_opt_cat_assoc(sanitize_pieces(pre), sanitize_pieces(seq![g]), sanitize_pieces(rest));
    lemma_joined_concat(pre + seq![g], rest);
    lemma_joined_concat(pre, seq![g]);
    lemma_pieces_one(g);
    assert(joined(pre) + segment_chars(g) + joined(rest) =~= joined(pre) + (segment_chars(g)
        + joined(rest)));
}

/// Converting `s` from `i` on is converting its pieces one by one.
pub proof fn lemma_sanitize_by_pieces(s: Seq<char>, i: int)
    requires
        0 <= i,
    ensures
        sanitize_segments_from(s, i) == sanitize_pieces(code_segments(s, i)),
    decreases s.len() - i,
{
    if i >= s.len() {
        assert(sanitize_pieces(Seq::<Segment>::empty()) == Some(Seq::<char>::empty()));
    } else {
        crate::text::lemma_find_from(s, seq!['`'], i);
        match find_from(s, seq!['`'], i) {
            None => {
                lemma_pieces_one(Segment::Text(s.subrange(i, s.len() as int)));
            },
            Some(pos) => {
                let pre = if pos > i {
                    seq![Segment::Text(s.subrange(i, pos))]
                } else {
                    Seq::<Segment>::empty()
                };
                if pos > i {
                    lemma_pieces_one(Segment::Text(s.subrange(i, pos)));
                } else {
                    assert(sanitize_pieces(pre) == Some(Seq::<char>::empty()));
                }
                if matches_at(s, pos, seq!['`', '`', '`']) {
                    crate::text::lemma_find_from(s, seq!['`', '`', '`'], pos + 3);
                    match find_from(s, seq!['`', '`', '`'], pos + 3) {
                        Some(e) => {
                            lemma_sanitize_by_pieces(s, e + 3);
                            assert(sanitize_segments_from(s, i) == opt_cat(
                                sanitize_pieces(pre),
                                opt_cat(Some(s.subrange(pos, e + 3)), sanitize_segments_from(s, e + 3)),
                            ));
                            lemma_pieces_one(Segment::Code(s.subrange(pos, e + 3)));
                            lemma_pieces_three(
                                pre,
                                Segment::Code(s.subrange(pos, e + 3)),
                                code_segments(s, e + 3),
                            );
                        },
                        None => {
                            lemma_pieces_one(Segment::Code(s.subrange(pos, s.len() as int)));
                            lemma_pieces_three(
                                pre,
                                Segment::Code(s.subrange(pos, s.len() as int)),
                                Seq::empty(),
                            );
                            assert(pre + seq![Segment::Code(s.subrange(pos, s.len() as int))]
                                + Seq::<Segment>::empty() =~= pre + seq![
                                Segment::Code(s.subrange(pos, s.len() as int)),
                            ]);
                            let c = s.subrange(pos, s.len() as int);
                            assert(c + Seq::<char>::empty() =~= c);
                        },
                    }
                } else {
                    crate::text::lemma_find_from(s, seq!['`'], pos + 1);
                    match find_from(s, seq!['`'], pos + 1) {
                        Some(e) => {
                            lemma_sanitize_by_pieces(s, e + 1);
                            lemma_pieces_one(Segment::Code(s.subrange(pos, e + 1)));
                            assert(sanitize_segments_from(s, i) == opt_cat(
                                sanitize_pieces(pre),
                                opt_cat(Some(s.subrange(pos, e + 1)), sanitize_segments_from(s, e + 1)),
                            ));
                            lemma_pieces_three(
                                pre,
                                Segment::Code(s.subrange(pos, e + 1)),
                                code_segments(s, e + 1),
                            );
                        },
                        None => {
                            lemma_sanitize_by_pieces(s, pos + 1);
                            lemma_pieces_one(Segment::Text(s.subrange(pos, pos + 1)));
                            assert(sanitize_segments_from(s, i) == opt_cat(
                                sanitize_pieces(pre),
                                opt_cat(sanitize_text(s.subrange(pos, pos + 1)), sanitize_segments_from(s, pos + 1)),
                            ));
                            lemma_pieces_three(
                                pre,
                                Segment::Text(s.subrange(pos, pos + 1)),
                                code_segments(s, pos + 1),
                            );
                        },
                    }
                }
            },
        }
    }
}

proof fn lemma_well_split_three(pre: Seq<Segment>, g: Segment, rest: Seq<Segment>)
    requires
        well_split(rest),
        pre.len() <= 1,
        forall|k: int|
            0 <= k < pre.len() ==> (#[trigger] pre[k] matches Segment::Text(t) && t.len() > 0
                && !contains(t, seq!['`'])),
        segment_chars(g).len() > 0,
        g matches Segment::Code(c) ==> c[0] == '`' && (c.last() == '`' || (rest.len() == 0
            && matches_at(c, 0, seq!['`', '`', '`']))),
        g matches Segment::Text(t) ==> t == seq!['`'] || !contains(t, seq!['`']),
    ensures
        well_split(pre + seq![g] + rest),
{
    let segs = pre + seq![g] + rest;
    let np = pre.len() as int;
    assert forall|k: int| 0 <= k < segs.len() implies {
        &&& segment_chars(#[trigger] segs[k]).len() > 0
        &&& segs[k] matches Segment::Code(c) ==> c[0] == '`' && (c.last() == '`' || (k == segs.len()
            - 1 && matches_at(c, 0, seq!['`', '`', '`'])))
        &&& segs[k] matches Segment::Text(t) ==> t == seq!['`'] || !contains(t, seq!['`'])
    } by {
        if k < np {
            assert(segs[k] == pre[k]);
        } else if k == np {
            assert(segs[k] == g);
        } else {
            assert(segs[k] == rest[k - np - 1]);
        }
    }
}

proof fn lemma_no_tick_between(s: Seq<char>, a: int, b: int)
    requires
        0 <= a <= b <= s.len(),
        forall|j: int| a <= j < b ==> !matches_at(s, j, seq!['`']),
    ensures
        !contains(s.subrange(a, b), seq!['`']),
{
    let t = s.subrange(a, b);
    crate::text::lemma_find_from(t, seq!['`'], 0);
    if let Some(q) = find(t, seq!['`']) {
        assert(s.subrange(a + q, a + q + 1) =~= t.subrange(q, q + 1));
        assert(matches_at(s, a + q, seq!['`']));
    }
}

/// The pieces of `s` from `i` on give back exactly that text, and are well
/// split: none is empty, code pieces run from a backtick to a backtick (only
/// an unclosed fence at the very end may stop short), text pieces hold no
/// backtick but for a lone one.
#[verifier::spinoff_prover]
#[verifier::rlimit(80)]
pub proof fn lemma_code_segments_partition(s: Seq<char>, i: int)
    requires
        0 <= i <= s.len(),
    ensures
        joined(code_segments(s, i)) == s.subrange(i, s.len() as int),
        well_split(code_segments(s, i)),
    decreases s.len() - i,
{
    let n = s.len() as int;
    if i == n {
        assert(s.subrange(i, n) =~= Seq::<char>::empty());
    } else {
        crate::text::lemma_find_from(s, seq!['`'], i);
        match find_from(s, seq!['`'], i) {
            None => {
                lemma_no_tick_between(s, i, n);
                lemma_pieces_one(Segment::Text(s.subrange(i, n)));
                lemma_well_split_three(
                    Seq::empty(),
                    Segment::Text(s.subrange(i, n)),
                    Seq::empty(),
                );
                assert(Seq::<Segment>::empty() + seq![Segment::Text(s.subrange(i, n))]
                    + Seq::<Segment>::empty() =~= seq![Segment::Text(s.subrange(i, n))]);
            },
            Some(pos) => {
                let pre = if pos > i {
                    seq![Segment::Text(s.subrange(i, pos))]
                } else {
                    Seq::<Segment>::empty()
                };
                if pos > i {
                    lemma_no_tick_between(s, i, pos);
                    lemma_pieces_one(Segment::Text(s.subrange(i, pos)));
                } else {
                    assert(joined(pre) == Seq::<char>::empty());
                }
                assert(joined(pre) == s.subrange(i, pos));
                assert(s.subrange(pos, pos + 1)[0] == s[pos]);
                if matches_at(s, pos, seq!['`', '`', '`']) {
                    assert(s.subrange(pos, pos + 3)[0] == s[pos]);
                    crate::text::lemma_find_from(s, seq!['`', '`', '`'], pos + 3);
                    match find_from(s, seq!['`', '`', '`'], pos + 3) {
                        Some(e) => {
                            let c = s.subrange(pos, e + 3);
                            lemma_code_segments_partition(s, e + 3);
                            lemma_pieces_three(pre, Segment::Code(c), code_segments(s, e + 3));
                            assert(s.subrange(e, e + 3)[2] == s[e + 2]);
                            assert(c.last() == s[e + 2]);
                            lemma_well_split_three(pre, Segment::Code(c), code_segments(s, e + 3));
                            assert(s.subrange(i, pos) + (c + s.subrange(e + 3, n)) =~= s.subrange(
                                i,
                                n,
                            ));
                        },
                        None => {
                            let c = s.subrange(pos, n);
                            lemma_pieces_three(pre, Segment::Code(c), Seq::empty());
                            assert(c.subrange(0, 3) =~= s.subrange(pos, pos + 3));
                            lemma_well_split_three(pre, Segment::Code(c), Seq::empty());
                            assert(pre + seq![Segment::Code(c)] + Seq::<Segment>::empty() =~= pre
                                + seq![Segment::Code(c)]);
                            assert(joined(Seq::<Segment>::empty()) == Seq::<char>::empty());
                            assert(s.subrange(i, pos) + (c + Seq::<char>::empty()) =~= s.subrange(
                                i,
                                n,
                            ));
                        },
                    }
                } else {
                    crate::text::lemma_find_from(s, seq!['`'], pos + 1);
                    match find_from(s, seq!['`'], pos + 1) {
                        Some(e) => {
                            let c = s.subrange(pos, e + 1);
                            lemma_code_segments_partition(s, e + 1);
                            lemma_pieces_three(pre, Segment::Code(c), code_segments(s, e + 1));
                            assert(s.subrange(e, e + 1)[0] == s[e]);
                            assert(c.last() == s[e]);
                            lemma_well_split_three(pre, Segment::Code(c), code_segments(s, e + 1));
                            assert(s.subrange(i, pos) + (c + s.subrange(e + 1, n)) =~= s.subrange(
                                i,
                                n,
                            ));
                        },
                        None => {
                            let c = s.subrange(pos, pos + 1);
                            lemma_code_segments_partition(s, pos + 1);
                            lemma_pieces_three(pre, Segment::Text(c), code_segments(s, pos + 1));
                            assert(c =~= seq!['`']);
                            lemma_well_split_three(pre, Segment::Text(c), code_segments(s, pos + 1));
                            assert(s.subrange(i, pos) + (c + s.subrange(pos + 1, n)) =~= s.subrange(
                                i,
                                n,
                            ));
                        },
                    }
                }
            },
        }
    }
}

#[verifier::spinoff_prover]
#[verifier::rlimit(40)]
proof fn lemma_code_segments_shift(x: Seq<char>, q: Seq<char>, i: int)
    requires
        0 <= i <= q.len(),
    ensures
        code_segments(x + q, x.len() + i) == code_segments(q, i),
    decreases q.len() - i,
{
    let s = x + q;
    let n = x.len() as int;
    let tick = seq!['`'];
    let fence = seq!['`', '`', '`'];
    if i < q.len() {
        crate::text::lemma_find_from_shift(x, q, tick, i);
        crate::text::lemma_find_from(q, tick, i);
        match find_from(q, tick, i) {
            None => {
                assert(s.subrange(n + i, s.len() as int) =~= q.subrange(i, q.len() as int));
            },
            Some(pos) => {
                assert(s.subrange(n + i, n + pos) =~= q.subrange(i, pos));
                if pos + 3 <= q.len() {
                    assert(s.subrange(n + pos, n + pos + 3) =~= q.subrange(pos, pos + 3));
                }
                assert(matches_at(s, n + pos, fence) == matches_at(q, pos, fence));
                if matches_at(q, pos, fence) {
                    crate::text::lemma_find_from_shift(x, q, fence, pos + 3);
                    crate::text::lemma_find_from(q, fence, pos + 3);
                    match find_from(q, fence, pos + 3) {
                        Some(e) => {
                            assert(s.subrange(n + pos, n + e + 3) =~= q.subrange(pos, e + 3));
                            lemma_code_segments_shift(x, q, e + 3);
                        },
                        None => {
                            assert(s.subrange(n + pos, s.len() as int) =~= q.subrange(
                                pos,
                                q.len() as int,
                            ));
                        },
                    }
                } else {
                    crate::text::lemma_find_from_shift(x, q, tick, pos + 1);
                    crate::text::lemma_find_from(q, tick, pos + 1);
                    match find_from(q, tick, pos + 1) {
                        Some(e) => {
                            assert(s.subrange(n + pos, n + e + 1) =~= q.subrange(pos, e + 1));
                            lemma_code_segments_shift(x, q, e + 1);
                        },
                        None => {
                            assert(s.subrange(n + pos, n + pos + 1) =~= q.subrange(pos, pos + 1));
                            lemma_code_segments_shift(x, q, pos + 1);
                        },
                    }
                }
            },
        }
    }
}

/// No backtick in `t`.
pub open spec fn tick_free(t: Seq<char>) -> bool {
    forall|j: int| 0 <= j < t.len() ==> #[trigger] t[j] != '`'
}

/// A code span or fenced block (`d` one or three backticks around non-empty
/// code `c` without backticks), after text `p` without backticks, is one code
/// piece, after `p` as a text piece of its own when `p` is not empty; the
/// split then goes on with the rest `q` alone.
#[verifier::spinoff_prover]
#[verifier::rlimit(40)]
pub proof fn lemma_code_span_first(p: Seq<char>, d: Seq<char>, c: Seq<char>, q: Seq<char>)
    requires
        tick_free(p),
        tick_free(c),
        c.len() > 0,
        d == seq!['`'] || d == seq!['`', '`', '`'],
    ensures
        code_segments(p + d + c + d + q, 0) == (if p.len() == 0 {
            Seq::<Segment>::empty()
        } else {
            seq![Segment::Text(p)]
        }) + seq![Segment::Code(d + c + d)] + code_segments(q, 0),
{
    let s = p + d + c + d + q;
    let np = p.len() as int;
    let nd = d.len() as int;
    let nc = c.len() as int;
    let tick = seq!['`'];
    let fence = seq!['`', '`', '`'];
    assert forall|k: int| 0 <= k < np implies #[trigger] s[k] == p[k] by {}
    assert forall|k: int| 0 <= k < nd implies #[trigger] s[np + k] == d[k] by {}
    assert forall|k: int| 0 <= k < nc implies #[trigger] s[np + nd + k] == c[k] by {}
    assert forall|k: int| 0 <= k < nd implies #[trigger] s[np + nd + nc + k] == d[k] by {}
    assert forall|j: int| 0 <= j < np implies !matches_at(s, j, tick) by {
        if matches_at(s, j, tick) {
            assert(s.subrange(j, j + 1)[0] == s[j]);
        }
    }
    assert(s.subrange(np, np + 1) =~= tick);
    crate::text::lemma_find_from_skip(s, tick, 0, np);
    assert(find_from(s, tick, 0) == Some(np));
    let x = p + d + c + d;
    assert(s =~= x + q);
    lemma_code_segments_shift(x, q, 0);
    let m = np + nd + nc;
    if nd == 1 {
        assert(!matches_at(s, np, fence)) by {
            if matches_at(s, np, fence) {
                assert(s.subrange(np, np + 3)[1] == s[np + 1]);
                assert(s[np + 1 + 0] == c[0]);
            }
        }
        assert forall|j: int| np + 1 <= j < m implies !matches_at(s, j, tick) by {
            if matches_at(s, j, tick) {
                assert(s.subrange(j, j + 1)[0] == s[j]);
                assert(s[np + 1 + (j - np - 1)] == c[j - np - 1]);
            }
        }
        assert(s.subrange(m, m + 1) =~= tick);
        crate::text::lemma_find_from_skip(s, tick, np + 1, m);
        assert(find_from(s, tick, np + 1) == Some(m));
        assert(s.subrange(np, m + 1) =~= d + c + d);
    } else {
        assert(s.subrange(np, np + 3) =~= fence);
        assert forall|j: int| np + 3 <= j < m implies !matches_at(s, j, fence) by {
            if matches_at(s, j, fence) {
                assert(s.subrange(j, j + 3)[0] == s[j]);
                assert(s[np + 3 + (j - np - 3)] == c[j - np - 3]);
            }
        }
        assert(s.subrange(m, m + 3) =~= fence);
        crate::text::lemma_find_from_skip(s, fence, np + 3, m);
        assert(find_from(s, fence, np + 3) == Some(m));
        assert(s.subrange(np, m + 3) =~= d + c + d);
    }
    if np > 0 {
        assert(s.subrange(0, np) =~= p);
    }
}

/// The sanitized form of Notion Markdown: code kept, text pieces converted,
/// then blank-line runs normalized. `None` on the inputs where a conversion
/// step cannot slice a tag.
pub open spec fn sanitize_markdown(s: Seq<char>) -> Option<Seq<char>> {
    match sanitize_segments_from(s, 0) {
        None => None,
        Some(t) => Some(normalize_blank_lines(t)),
    }
}

/// One step of the code/text split at `i`: the output for the pieces that
/// start there and the index to go on from.
#[verifier::rlimit(40)]
fn segment_step(s: &Vec<char>, i: usize) -> (r: Option<(Vec<char>, usize)>)
    requires
        i < s.len(),
    ensures
        r is None ==> sanitize_segments_from(s@, i as int) is None,
        r matches Some((chunk, next)) ==> {
            &&& i < next <= s.len()
            &&& sanitize_segments_from(s@, i as int) == opt_cat(
                Some(chunk@),
                sanitize_segments_from(s@, next as int),
            )
        },
{
    let tick = vec!['`'];
    let fence = vec!['`', '`', '`'];
    assert(tick@ =~= seq!['`']);
    assert(fence@ =~= seq!['`', '`', '`']);
    let pos = match search(s, &tick, i) {
        None => {
            let t = sanitize_text_exec(s, i, s.len())?;
            assert(t@ + Seq::<char>::empty() =~= t@);
            return Some((t, s.len()));
        },
        Some(x) => x,
    };
    let mut out: Vec<char> = Vec::new();
    if pos > i {
        let t = sanitize_text_exec(s, i, pos)?;
        out = t;
    }
    let ghost pre = out@;
    assert(pos > i ==> sanitize_text(s@.subrange(i as int, pos as int)) == Some(pre));
    assert(pos == i ==> pre =~= Seq::<char>::empty());
    if matches_at_exec(s, pos, &fence) {
        match search(s, &fence, pos + 3) {
            Some(e) => {
                append_range(&mut out, s, pos, e + 3);
                assert(out@ == pre + s@.subrange(pos as int, e + 3));
                Some((out, e + 3))
            },
            None => {
                append_range(&mut out, s, pos, s.len());
                assert(out@ + Seq::<char>::empty() =~= pre + s@.subrange(pos as int, s.len() as int));
                Some((out, s.len()))
            },
        }
    } else {
        match search(s, &tick, pos + 1) {
            Some(e) => {
                append_range(&mut out, s, pos, e + 1);
                assert(out@ == pre + s@.subrange(pos as int, e + 1));
                Some((out, e + 1))
            },
            None => {
                let t = sanitize_text_exec(s, pos, pos + 1)?;
                append_all(&mut out, &t);
                Some((out, pos + 1))
            },
        }
    }
}

fn sanitize_segments_exec(s: &Vec<char>) -> (r: Option<Vec<char>>)
    ensures
        r matches Some(v) ==> sanitize_segments_from(s@, 0) == Some(v@),
        r is None ==> sanitize_segments_from(s@, 0) is None,
{
    let mut out: Vec<char> = Vec::new();
    let mut i: usize = 0;
    while i < s.len()
        invariant
            i <= s.len(),
            opt_cat(Some(out@), sanitize_segments_from(s@, i as int)) == sanitize_segments_from(
                s@,
                0,
            ),
        decreases s.len() - i,
    {
        let (chunk, next) = segment_step(s, i)?;
        let ghost before = out@;
        append_all(&mut out, &chunk);
        proof {
            match sanitize_segments_from(s@, next as int) {
                Some(rest) => {
                    assert(before + (chunk@ + rest) =~= out@ + rest);
                },
                None => {},
            }
        }
        i = next;
    }
    assert(out@ + Seq::<char>::empty() =~= out@);
    Some(out)
}

/// Sanitize Notion Markdown, or `None` on the inputs where a conversion step
/// cannot slice a tag.
pub fn sanitize_checked(input: &str) -> (r: Option<String>)
    ensures
        r is None <==> sanitize_markdown(input@) is None,
        r matches Some(out) ==> sanitize_markdown(input@) == Some(out@),
{
    let s = chars_of(input);
    let t = sanitize_segments_exec(&s)?;
    let n = normalize_blank_lines_exec(&t);
    Some(to_string(&n))
}

/// Sanitize Notion API markdown output by removing or converting its
/// non-standard tags and attributes.
pub fn sanitize(input: &str) -> (out: String)
    requires
        sanitize_markdown(input@) is Some,
    ensures
        sanitize_markdown(input@) == Some(out@),
{
    match sanitize_checked(input) {
        Some(out) => out,
        None => String::new(),
    }
}

// ---------------------------------------------------------------------------
// Laws
// ---------------------------------------------------------------------------

/// `t` holds no run of four newlines (no more than two blank lines in a row).
pub open spec fn no_four_newlines(t: Seq<char>) -> bool {
    forall|j: int|
        0 <= j && j + 3 < t.len() ==> !(#[trigger] t[j] == '\n' && t[j + 1] == '\n' && t[j + 2]
            == '\n' && t[j + 3] == '\n')
}

/// `t` starts with `m` newlines.
pub open spec fn starts_with_newlines(t: Seq<char>, m: int) -> bool {
    m <= t.len() && forall|j: int| 0 <= j < m ==> #[trigger] t[j] == '\n'
}

proof fn lemma_normalize_runs(s: Seq<char>, i: int, k: int)
    requires
        0 <= k,
    ensures
        no_four_newlines(normalize_blank_lines_from(s, i, k)),
        !starts_with_newlines(
            normalize_blank_lines_from(s, i, k),
            if k >= 3 {
                1
            } else {
                4 - k
            },
        ),
    decreases s.len() - i,
{
    let out = normalize_blank_lines_from(s, i, k);
    if i < 0 || i >= s.len() {
    } else if s[i] == '\n' {
        lemma_normalize_runs(s, i + 1, k + 1);
        let rest = normalize_blank_lines_from(s, i + 1, k + 1);
        if k + 1 <= 3 {
            assert(out == seq!['\n'] + rest);
            assert forall|j: int| 0 <= j && j + 3 < out.len() implies !(#[trigger] out[j] == '\n'
                && out[j + 1] == '\n' && out[j + 2] == '\n' && out[j + 3] == '\n') by {
                if j == 0 {
                    if out[0] == '\n' && out[1] == '\n' && out[2] == '\n' && out[3] == '\n' {
                        assert(starts_with_newlines(rest, 3 - k));
                    }
                } else {
                    assert(out[j] == rest[j - 1]);
                    assert(out[j + 3] == rest[j + 2]);
                }
            }
            if starts_with_newlines(out, 4 - k) {
                assert forall|j: int| 0 <= j < 3 - k implies #[trigger] rest[j] == '\n' by {
                    assert(out[j + 1] == '\n');
                }
                assert(starts_with_newlines(rest, 3 - k));
            }
        }
    } else {
        lemma_normalize_runs(s, i + 1, 0);
        let rest = normalize_blank_lines_from(s, i + 1, 0);
        assert(out == seq![s[i]] + rest);
        assert(out[0] == s[i]);
        assert forall|j: int| 0 <= j && j + 3 < out.len() implies !(#[trigger] out[j] == '\n'
            && out[j + 1] == '\n' && out[j + 2] == '\n' && out[j + 3] == '\n') by {
            if j > 0 {
                assert(out[j] == rest[j - 1]);
            }
        }
    }
}

/// Sanitized text never holds more than two blank lines in a row.
pub proof fn lemma_sanitized_blank_lines(s: Seq<char>)
    ensures
        sanitize_markdown(s) matches Some(t) ==> no_four_newlines(t),
{
    match sanitize_segments_from(s, 0) {
        Some(t) => lemma_normalize_runs(t, 0, 0),
        None => {},
    }
}

/// Is the character at `j` kept by blank-line normalization: anything but a
/// newline that follows three newlines.
pub open spec fn kept_at(s: Seq<char>, j: int) -> bool {
    !(s[j] == '\n' && j >= 3 && s[j - 1] == '\n' && s[j - 2] == '\n' && s[j - 3] == '\n')
}

/// The characters of `s` from `i` on that are kept, in order.
pub open spec fn kept_from(s: Seq<char>, i: int) -> Seq<char>
    decreases s.len() - i,
{
    if i < 0 || i >= s.len() {
        Seq::empty()
    } else if kept_at(s, i) {
        seq![s[i]] + kept_from(s, i + 1)
    } else {
        kept_from(s, i + 1)
    }
}

proof fn lemma_normalize_kept(s: Seq<char>, i: int, k: int)
    requires
        0 <= k <= i <= s.len(),
        forall|t: int| i - k <= t < i ==> #[trigger] s[t] == '\n',
        k < i ==> s[i - k - 1] != '\n',
    ensures
        normalize_blank_lines_from(s, i, k) == kept_from(s, i),
    decreases s.len() - i,
{
    if i < s.len() {
        if s[i] == '\n' {
            lemma_normalize_kept(s, i + 1, k + 1);
            if k >= 3 {
                assert(s[i - 1] == '\n' && s[i - 2] == '\n' && s[i - 3] == '\n');
            } else if k < i {
                assert(s[i - k - 1] != '\n');
            }
        } else {
            lemma_normalize_kept(s, i + 1, 0);
        }
    }
}

/// Blank-line normalization drops exactly the newlines that follow three
/// newlines, and keeps every other character in order: a run of `k`
/// newlines becomes `min(k, 3)` newlines.
pub proof fn lemma_normalize_drops_fourth_newlines(s: Seq<char>)
    ensures
        normalize_blank_lines(s) == kept_from(s, 0),
{
    lemma_normalize_kept(s, 0, 0);
}

/// Blank-line normalization leaves its own output unchanged.
pub proof fn lemma_normalize_idempotent(s: Seq<char>)
    ensures
        normalize_blank_lines(normalize_blank_lines(s)) == normalize_blank_lines(s),
{
    let t = normalize_blank_lines(s);
    lemma_normalize_runs(s, 0, 0);
    lemma_normalize_keeps_plain(t, 0, 0);
    assert(t.subrange(0, t.len() as int) =~= t);
}

/// Text the conversions leave alone: no `<`, no `{` and no `?X-Amz-`.
pub open spec fn tags_absent(s: Seq<char>) -> bool {
    &&& forall|j: int| 0 <= j < s.len() ==> #[trigger] s[j] != '<' && s[j] != '{'
    &&& !contains(s, "?X-Amz-"@)
}

/// Ordinary Markdown: no Notion tag (no `<`), no `{...}` attribute, no
/// signed image URL (`?X-Amz-`), and no run of four newlines. Code and image
/// links may occur.
pub open spec fn is_plain_markdown(s: Seq<char>) -> bool {
    &&& tags_absent(s)
    &&& no_four_newlines(s)
}

proof fn lemma_absent_in_part(s: Seq<char>, p: Seq<char>, a: int, b: int)
    requires
        0 <= a <= b <= s.len(),
        !contains(s, p),
    ensures
        !contains(s.subrange(a, b), p),
{
    let t = s.subrange(a, b);
    crate::text::lemma_find_from(t, p, 0);
    crate::text::lemma_find_from(s, p, 0);
    if let Some(q) = find(t, p) {
        assert(s.subrange(a + q, a + q + p.len()) =~= t.subrange(q, q + p.len()));
        assert(matches_at(s, a + q, p));
    }
}

proof fn lemma_tags_absent_part(s: Seq<char>, a: int, b: int)
    requires
        0 <= a <= b <= s.len(),
        tags_absent(s),
    ensures
        tags_absent(s.subrange(a, b)),
{
    lemma_absent_in_part(s, "?X-Amz-"@, a, b);
    assert forall|j: int| 0 <= j < b - a implies #[trigger] s.subrange(a, b)[j] != '<' && s.subrange(
        a,
        b,
    )[j] != '{' by {
        assert(s.subrange(a, b)[j] == s[a + j]);
    }
}

proof fn lemma_unsigned_images_untouched(s: Seq<char>, from: int)
    requires
        0 <= from,
        !contains(s, "?X-Amz-"@),
    ensures
        strip_image_signatures_from(s, from) == s,
    decreases s.len() - from,
{
    crate::text::lemma_find_from(s, seq!['!', '['], from);
    match find_from(s, seq!['!', '['], from) {
        None => {},
        Some(a) => {
            crate::text::lemma_find_from(s, seq!['('], a);
            match find_from(s, seq!['('], a) {
                None => lemma_unsigned_images_untouched(s, a + 2),
                Some(p) => {
                    crate::text::lemma_find_from(s, seq![')'], p);
                    match find_from(s, seq![')'], p) {
                        None => lemma_unsigned_images_untouched(s, p + 1),
                        Some(c) => {
                            if p < c {
                                lemma_absent_in_part(s, "?X-Amz-"@, p + 1, c);
                                lemma_unsigned_images_untouched(s, c + 1);
                            }
                        },
                    }
                },
            }
        },
    }
}

proof fn lemma_find_absent(s: Seq<char>, p: Seq<char>, i: int)
    requires
        0 <= i,
        p.len() > 0,
        forall|j: int| 0 <= j < s.len() ==> #[trigger] s[j] != p[0],
    ensures
        find_from(s, p, i) is None,
{
    crate::text::lemma_find_from(s, p, i);
    if let Some(j) = find_from(s, p, i) {
        assert(s.subrange(j, j + p.len())[0] == s[j]);
    }
}

proof fn lemma_plain_tag_untouched(kind: TagKind, s: Seq<char>)
    requires
        tags_absent(s),
    ensures
        replace_tag(kind, s) == Some(s),
{
    let open = crate::tags::open_pat(crate::tags::tag_name(kind));
    assert(open[0] == '<');
    lemma_find_absent(s, open, 0);
}

proof fn lemma_plain_replace_untouched(s: Seq<char>, p: Seq<char>, r: Seq<char>)
    requires
        tags_absent(s),
        p.len() > 0,
        p[0] == '<',
    ensures
        replace_all(s, p, r) == s,
{
    lemma_find_absent(s, p, 0);
    assert(s.subrange(0, s.len() as int) =~= s);
}

proof fn lemma_plain_early_steps(s: Seq<char>)
    requires
        tags_absent(s),
    ensures
        convert_tables(s) == s,
        convert_mentions(s) == Some(s),
        strip_spans(s) == s,
        convert_simple_tags(s) == s,
{
    reveal_strlit("<table>");
    reveal_strlit("<span ");
    reveal_strlit("<empty-block/>");
    reveal_strlit("<divider/>");
    reveal_strlit("<br/>");
    reveal_strlit("<br>");
    assert(s.subrange(0, s.len() as int) =~= s);
    lemma_find_absent(s, "<table>"@, 0);
    lemma_plain_tag_untouched(TagKind::MentionPage, s);
    lemma_plain_tag_untouched(TagKind::MentionUser, s);
    lemma_plain_tag_untouched(TagKind::File, s);
    lemma_find_absent(s, "<span "@, 0);
    lemma_plain_replace_untouched(s, "<empty-block/>"@, "\n\n"@);
    lemma_plain_replace_untouched(s, "<divider/>"@, "---"@);
    lemma_plain_replace_untouched(s, "<br/>"@, "\n"@);
    lemma_plain_replace_untouched(s, "<br>"@, "\n"@);
}

proof fn lemma_plain_middle_steps(s: Seq<char>)
    requires
        tags_absent(s),
    ensures
        strip_curly(s) == s,
        strip_image_signatures(s) == s,
        strip_details(s) == Some(s),
        strip_callouts(s) == s,
{
    lemma_find_absent(s, seq!['{'], 0);
    lemma_unsigned_images_untouched(s, 0);
    let details = crate::tags::open_pat("details"@);
    assert(details[0] == '<');
    lemma_find_absent(s, details, 0);
    let callout = crate::tags::open_pat("callout"@);
    assert(callout[0] == '<');
    lemma_find_absent(s, callout, 0);
}

proof fn lemma_plain_late_steps(s: Seq<char>)
    requires
        tags_absent(s),
    ensures
        strip_wrapper(s, "synced-block"@) == s,
        replace_tag(TagKind::Equation, s) == Some(s),
        strip_columns(s) == s,
        convert_late_tags(s) == Some(s),
{
    reveal_strlit("<column-list>");
    assert(s.subrange(0, s.len() as int) =~= s);
    let synced = crate::tags::open_pat("synced-block"@) + seq!['>'];
    assert(synced[0] == '<');
    lemma_find_absent(s, synced, 0);
    lemma_plain_tag_untouched(TagKind::Equation, s);
    lemma_find_absent(s, "<column-list>"@, 0);
    lemma_plain_tag_untouched(TagKind::Checkbox, s);
    lemma_plain_tag_untouched(TagKind::Bookmark, s);
    lemma_plain_tag_untouched(TagKind::MentionDate, s);
}

proof fn lemma_plain_text_untouched(s: Seq<char>)
    requires
        tags_absent(s),
    ensures
        sanitize_text(s) == Some(s),
{
    lemma_plain_early_steps(s);
    lemma_plain_middle_steps(s);
    lemma_plain_late_steps(s);
    reveal(sanitize_text);
}

proof fn lemma_normalize_keeps_plain(s: Seq<char>, i: int, k: int)
    requires
        0 <= k <= 3,
        0 <= i <= s.len(),
        k <= i,
        forall|t: int| i - k <= t < i ==> #[trigger] s[t] == '\n',
        no_four_newlines(s),
    ensures
        normalize_blank_lines_from(s, i, k) == s.subrange(i, s.len() as int),
    decreases s.len() - i,
{
    if i < s.len() {
        if s[i] == '\n' {
            if k == 3 {
                assert(s[i - 3] == '\n' && s[i - 2] == '\n' && s[i - 1] == '\n');
                assert(!(s[i - 3] == '\n' && s[i - 2] == '\n' && s[i - 1] == '\n' && s[i] == '\n'));
            }
            lemma_normalize_keeps_plain(s, i + 1, k + 1);
        } else {
            lemma_normalize_keeps_plain(s, i + 1, 0);
        }
        assert(seq![s[i]] + s.subrange(i + 1, s.len() as int) =~= s.subrange(i, s.len() as int));
    } else {
        assert(s.subrange(i, s.len() as int) =~= Seq::<char>::empty());
    }
}

#[verifier::spinoff_prover]
#[verifier::rlimit(40)]
proof fn lemma_plain_segments(s: Seq<char>, i: int)
    requires
        tags_absent(s),
        0 <= i <= s.len(),
    ensures
        sanitize_segments_from(s, i) == Some(s.subrange(i, s.len() as int)),
    decreases s.len() - i,
{
    let n = s.len() as int;
    if i < n {
        crate::text::lemma_find_from(s, seq!['`'], i);
        match find_from(s, seq!['`'], i) {
            None => {
                lemma_tags_absent_part(s, i, n);
                lemma_plain_text_untouched(s.subrange(i, n));
            },
            Some(pos) => {
                if pos > i {
                    lemma_tags_absent_part(s, i, pos);
                    lemma_plain_text_untouched(s.subrange(i, pos));
                }
                let pre = s.subrange(i, pos);
                if matches_at(s, pos, seq!['`', '`', '`']) {
                    crate::text::lemma_find_from(s, seq!['`', '`', '`'], pos + 3);
                    match find_from(s, seq!['`', '`', '`'], pos + 3) {
                        Some(e) => {
                            lemma_plain_segments(s, e + 3);
                            assert(pre + (s.subrange(pos, e + 3) + s.subrange(e + 3, n))
                                =~= s.subrange(i, n));
                        },
                        None => {
                            assert(pre + s.subrange(pos, n) =~= s.subrange(i, n));
                        },
                    }
                } else {
                    crate::text::lemma_find_from(s, seq!['`'], pos + 1);
                    match find_from(s, seq!['`'], pos + 1) {
                        Some(e) => {
                            lemma_plain_segments(s, e + 1);
                            assert(pre + (s.subrange(pos, e + 1) + s.subrange(e + 1, n))
                                =~= s.subrange(i, n));
                        },
                        None => {
                            lemma_tags_absent_part(s, pos, pos + 1);
                            lemma_plain_text_untouched(s.subrange(pos, pos + 1));
                            lemma_plain_segments(s, pos + 1);
                            assert(pre + (s.subrange(pos, pos + 1) + s.subrange(pos + 1, n))
                                =~= s.subrange(i, n));
                        },
                    }
                }
                if pos == i {
                    assert(pre =~= Seq::<char>::empty());
                }
            },
        }
    }
}

/// Ordinary Markdown passes through unchanged: text with no Notion tag, no
/// `{...}` attribute, no signed image URL and no more than two blank lines in
/// a row, whatever code spans, code blocks and image links it holds.
pub proof fn lemma_plain_markdown_unchanged(s: Seq<char>)
    requires
        is_plain_markdown(s),
    ensures
        sanitize_markdown(s) == Some(s),
{
    lemma_normalize_keeps_plain(s, 0, 0);
    lemma_plain_segments(s, 0);
    assert(s.subrange(0, s.len() as int) =~= s);
}

} // verus!
