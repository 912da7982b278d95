//! Unwrapping of Notion's block-level markup: spans, toggles (`<details>`),
//! callouts, plain wrappers and column layouts.
use vstd::prelude::*;

use crate::tags::{
    close_pat, close_pat_exec, extract_attr, extract_attr_exec, find_innermost, find_innermost_exec,
    lemma_extract_attr_len, lemma_find_innermost_from, open_pat, open_pat_exec,
};
use crate::text::{
    append_all, append_range, chars_of, contains, contains_exec, find, find_from, join, join_exec,
    lemma_close_after_open, lemma_find_from, lemma_find_from_shift, lemma_first_block,
    lemma_first_match, lemma_no_close_in_open, lemma_trim_len, search, slice, trim, trim_slice, views,
};

verus! {

// ---------------------------------------------------------------------------
// <span ...>text</span>
// ---------------------------------------------------------------------------

/// Each `<span ...>text</span>` becomes `text`; an opening `<span ...>` with
/// no closing tag after it is dropped. Repeats until no `<span ` is left
/// (or one is left without a `>` after it).
pub open spec fn strip_spans(s: Seq<char>) -> Seq<char>
    decreases s.len(),
{
    match find(s, "<span "@) {
        None => s,
        Some(start) => match find_from(s, seq!['>'], start) {
            None => s,
            Some(g) => if 0 <= start <= g < s.len() {
                match find_from(s, "</span>"@, g + 1) {
                    Some(c) => if g + 1 <= c && c + "</span>"@.len() <= s.len() {
                        strip_spans(
                            s.subrange(0, start) + s.subrange(g + 1, c) + s.subrange(
                                c + "</span>"@.len(),
                                s.len() as int,
                            ),
                        )
                    } else {
                        s
                    },
                    None => strip_spans(s.subrange(0, start) + s.subrange(g + 1, s.len() as int)),
                }
            } else {
                s
            },
        },
    }
}

pub fn strip_spans_exec(input: Vec<char>) -> (out: Vec<char>)
    ensures
        out@ == strip_spans(input@),
{
    let open = chars_of("<span ");
    let close = chars_of("</span>");
    let gt = vec!['>'];
    assert(gt@ =~= seq!['>']);
    let mut s = input;
    loop
        invariant
            open@ == "<span "@,
            close@ == "</span>"@,
            gt@ == seq!['>'],
            strip_spans(s@) == strip_spans(input@),
        decreases s.len(),
    {
        let start = match search(&s, &open, 0) {
            None => return s,
            Some(x) => x,
        };
        let g = match search(&s, &gt, start) {
            None => return s,
            Some(x) => x,
        };
        let mut next = slice(&s, 0, start);
        match search(&s, &close, g + 1) {
            Some(c) => {
                append_range(&mut next, &s, g + 1, c);
                append_range(&mut next, &s, c + close.len(), s.len());
            },
            None => {
                append_range(&mut next, &s, g + 1, s.len());
            },
        }
        s = next;
    }
}

// ---------------------------------------------------------------------------
// <details><summary>title</summary>body</details>
// ---------------------------------------------------------------------------

/// The text a `<details>` block turns into: `**title**` followed by a blank
/// line and the body when there is a summary, else the trimmed content.
/// `None` where `</summary>` comes before the end of `<summary>`.
pub open spec fn details_content(inner: Seq<char>) -> Option<Seq<char>> {
    let t = trim(inner);
    match find(t, "<summary>"@) {
        Some(ss) => match find(t, "</summary>"@) {
            Some(se) => {
                let a = ss + "<summary>"@.len();
                if a <= se {
                    let title = trim(t.subrange(a, se));
                    let body = trim(t.subrange(se + "</summary>"@.len(), t.len() as int));
                    if body.len() == 0 {
                        Some("**"@ + title + "**"@)
                    } else {
                        Some("**"@ + title + "**\n\n"@ + body)
                    }
                } else {
                    None
                }
            },
            None => Some(t),
        },
        None => Some(t),
    }
}

/// A toggle's converted content is never longer than its inner text.
pub proof fn lemma_details_content_len(inner: Seq<char>)
    ensures
        details_content(inner) matches Some(c) ==> c.len() <= inner.len(),
{
    let t = trim(inner);
    lemma_trim_len(inner);
    reveal_strlit("<summary>");
    reveal_strlit("</summary>");
    reveal_strlit("**");
    reveal_strlit("**\n\n");
    lemma_find_from(t, "<summary>"@, 0);
    lemma_find_from(t, "</summary>"@, 0);
    match find(t, "<summary>"@) {
        Some(ss) => match find(t, "</summary>"@) {
            Some(se) => {
                let a = ss + "<summary>"@.len();
                if a <= se {
                    lemma_trim_len(t.subrange(a, se));
                    lemma_trim_len(t.subrange(se + "</summary>"@.len(), t.len() as int));
                }
            },
            None => {},
        },
        None => {},
    }
}

fn details_content_exec(s: &Vec<char>, lo: usize, hi: usize) -> (r: Option<Vec<char>>)
    requires
        lo <= hi <= s.len(),
    ensures
        r matches Some(v) ==> details_content(s@.subrange(lo as int, hi as int)) == Some(v@),
        r is None ==> details_content(s@.subrange(lo as int, hi as int)) is None,
{
    let t = trim_slice(s, lo, hi);
    let open = chars_of("<summary>");
    let close = chars_of("</summary>");
    let ss = match search(&t, &open, 0) {
        None => return Some(t),
        Some(x) => x,
    };
    let se = match search(&t, &close, 0) {
        None => return Some(t),
        Some(x) => x,
    };
    let a = ss + open.len();
    if a > se {
        return None;
    }
    let title = trim_slice(&t, a, se);
    let body = trim_slice(&t, se + close.len(), t.len());
    let mut out = chars_of("**");
    append_all(&mut out, &title);
    if body.len() == 0 {
        append_all(&mut out, &chars_of("**"));
    } else {
        append_all(&mut out, &chars_of("**\n\n"));
        append_all(&mut out, &body);
    }
    Some(out)
}

/// Innermost first, each `<details ...>inner</details>` is replaced by
/// [`details_content`] of the text from just past `<details>` to the first
/// `</details>`. `None` where that text would start after its end, where the
/// character just before its start (the one after `<details`) takes more than
/// one byte in UTF-8, so that the start falls inside it, or where the content
/// cannot be computed.
pub open spec fn strip_details(s: Seq<char>) -> Option<Seq<char>>
    decreases s.len(),
{
    match find_innermost(s, "details"@) {
        None => Some(s),
        Some(start) => match find_from(s, "</details>"@, start) {
            None => Some(s),
            Some(co) => {
                let a = start + "<details>"@.len();
                if a > co {
                    None
                } else if s[a - 1] as u32 >= 0x80 {
                    None
                } else {
                    match details_content(s.subrange(a, co)) {
                        None => None,
                        Some(content) => {
                            let end = co + "</details>"@.len();
                            if 0 <= start && end <= s.len() && content.len() < end - start {
                                strip_details(
                                    s.subrange(0, start) + content + s.subrange(
                                        end,
                                        s.len() as int,
                                    ),
                                )
                            } else {
                                Some(s)
                            }
                        },
                    }
                }
            },
        },
    }
}

pub fn strip_details_exec(input: Vec<char>) -> (r: Option<Vec<char>>)
    ensures
        r matches Some(v) ==> strip_details(input@) == Some(v@),
        r is None ==> strip_details(input@) is None,
{
    let name = chars_of("details");
    let close = chars_of("</details>");
    let open_len = chars_of("<details>").len();
    proof {
        reveal_strlit("<details>");
        reveal_strlit("</details>");
    }
    let mut s = input;
    loop
        invariant
            name@ == "details"@,
            close@ == "</details>"@,
            open_len == "<details>"@.len(),
            open_len == 9,
            close@.len() == 10,
            strip_details(s@) == strip_details(input@),
        decreases s.len(),
    {
        let start = match find_innermost_exec(&s, &name) {
            None => return Some(s),
            Some(x) => x,
        };
        proof {
            lemma_find_innermost_from(s@, name@, 0);
        }
        let co = match search(&s, &close, start) {
            None => return Some(s),
            Some(x) => x,
        };
        if co - start < open_len {
            return None;
        }
        let a = start + open_len;
        if s[a - 1] as u32 >= 0x80 {
            return None;
        }
        let content = match details_content_exec(&s, a, co) {
            None => return None,
            Some(c) => c,
        };
        proof {
            lemma_details_content_len(s@.subrange(a as int, co as int));
        }
        let end = co + close.len();
        let mut next = slice(&s, 0, start);
        append_all(&mut next, &content);
        append_range(&mut next, &s, end, s.len());
        s = next;
    }
}

// ---------------------------------------------------------------------------
// <callout icon="...">content</callout>
// ---------------------------------------------------------------------------

/// The callout's `icon` attribute, else its `emoji` attribute.
pub open spec fn callout_icon(header: Seq<char>) -> Option<Seq<char>> {
    match extract_attr(header, "icon"@) {
        Some(i) => Some(i),
        None => extract_attr(header, "emoji"@),
    }
}

/// The text a callout turns into: its icon, a space and its trimmed content,
/// or the trimmed content alone.
pub open spec fn callout_text(header: Seq<char>, content: Seq<char>) -> Seq<char> {
    match callout_icon(header) {
        Some(i) => i + " "@ + trim(content),
        None => trim(content),
    }
}

/// Innermost first, each `<callout ...>content</callout>` is replaced by
/// [`callout_text`] of its header (up to the first `>`) and content.
pub open spec fn strip_callouts(s: Seq<char>) -> Seq<char>
    decreases s.len(),
{
    match find_innermost(s, "callout"@) {
        None => s,
        Some(start) => match find_from(s, seq!['>'], start) {
            None => s,
            Some(g) => match find_from(s, "</callout>"@, g + 1) {
                None => s,
                Some(co) => {
                    let repl = callout_text(s.subrange(start, g), s.subrange(g + 1, co));
                    let end = co + "</callout>"@.len();
                    if 0 <= start <= g && g + 1 <= co && end <= s.len() && repl.len() < end
                        - start {
                        strip_callouts(s.subrange(0, start) + repl + s.subrange(end, s.len() as int))
                    } else {
                        s
                    }
                },
            },
        },
    }
}

proof fn lemma_callout_text_len(header: Seq<char>, content: Seq<char>)
    ensures
        callout_text(header, content).len() <= header.len() + 1 + content.len(),
{
    reveal_strlit(" ");
    lemma_trim_len(content);
    lemma_extract_attr_len(header, "icon"@);
    lemma_extract_attr_len(header, "emoji"@);
}

fn callout_text_exec(s: &Vec<char>, start: usize, g: usize, co: usize) -> (v: Vec<char>)
    requires
        start <= g < co <= s.len(),
    ensures
        v@ == callout_text(s@.subrange(start as int, g as int), s@.subrange(g + 1, co as int)),
{
    let header = slice(s, start, g);
    let content = trim_slice(s, g + 1, co);
    let icon = match extract_attr_exec(&header, "icon") {
        Some(i) => Some(i),
        None => extract_attr_exec(&header, "emoji"),
    };
    match icon {
        Some(i) => {
            let mut out = i;
            append_all(&mut out, &chars_of(" "));
            append_all(&mut out, &content);
            out
        },
        None => content,
    }
}

pub fn strip_callouts_exec(input: Vec<char>) -> (out: Vec<char>)
    ensures
        out@ == strip_callouts(input@),
{
    let name = chars_of("callout");
    let close = chars_of("</callout>");
    let gt = vec!['>'];
    assert(gt@ =~= seq!['>']);
    proof {
        reveal_strlit("</callout>");
    }
    let mut s = input;
    loop
        invariant
            name@ == "callout"@,
            close@ == "</callout>"@,
            close@.len() == 10,
            gt@ == seq!['>'],
            strip_callouts(s@) == strip_callouts(input@),
        decreases s.len(),
    {
        let start = match find_innermost_exec(&s, &name) {
            None => return s,
            Some(x) => x,
        };
        let g = match search(&s, &gt, start) {
            None => return s,
            Some(x) => x,
        };
        let co = match search(&s, &close, g + 1) {
            None => return s,
            Some(x) => x,
        };
        let repl = callout_text_exec(&s, start, g, co);
        proof {
            lemma_callout_text_len(s@.subrange(start as int, g as int), s@.subrange(g + 1, co as int));
        }
        let end = co + close.len();
        let mut next = slice(&s, 0, start);
        append_all(&mut next, &repl);
        append_range(&mut next, &s, end, s.len());
        s = next;
    }
}

// ---------------------------------------------------------------------------
// Plain wrappers such as <synced-block>content</synced-block>
// ---------------------------------------------------------------------------

/// Innermost first, each `<name ...>content</name>` is replaced by its
/// trimmed content.
pub open spec fn strip_wrapper_loop(s: Seq<char>, name: Seq<char>) -> Seq<char>
    decreases s.len(),
{
    match find_innermost(s, name) {
        None => s,
        Some(start) => match find_from(s, seq!['>'], start) {
            None => s,
            Some(g) => match find_from(s, close_pat(name), g + 1) {
                None => s,
                Some(co) => {
                    let content = trim(s.subrange(g + 1, co));
                    let end = co + close_pat(name).len();
                    if 0 <= start <= g && g + 1 <= co && end <= s.len() && content.len() < end
                        - start {
                        strip_wrapper_loop(
                            s.subrange(0, start) + content + s.subrange(end, s.len() as int),
                            name,
                        )
                    } else {
                        s
                    }
                },
            },
        },
    }
}

/// Unwrap `<name>` wrappers; text without a literal `<name>` is left as it is.
pub open spec fn strip_wrapper(s: Seq<char>, name: Seq<char>) -> Seq<char> {
    if !contains(s, open_pat(name) + seq!['>']) {
        s
    } else {
        strip_wrapper_loop(s, name)
    }
}

pub fn strip_wrapper_exec(input: Vec<char>, name: &Vec<char>) -> (out: Vec<char>)
    ensures
        out@ == strip_wrapper(input@, name@),
{
    let mut exact = open_pat_exec(name);
    exact.push('>');
    assert(exact@ =~= open_pat(name@) + seq!['>']);
    if !contains_exec(&input, &exact) {
        return input;
    }
    let close = close_pat_exec(name);
    let gt = vec!['>'];
    assert(gt@ =~= seq!['>']);
    let mut s = input;
    loop
        invariant
            close@ == close_pat(name@),
            gt@ == seq!['>'],
            contains(input@, open_pat(name@) + seq!['>']),
            strip_wrapper_loop(s@, name@) == strip_wrapper_loop(input@, name@),
        decreases s.len(),
    {
        let start = match find_innermost_exec(&s, name) {
            None => return s,
            Some(x) => x,
        };
        let g = match search(&s, &gt, start) {
            None => return s,
            Some(x) => x,
        };
        let co = match search(&s, &close, g + 1) {
            None => return s,
            Some(x) => x,
        };
        let content = trim_slice(&s, g + 1, co);
        proof {
            lemma_trim_len(s@.subrange(g + 1, co as int));
        }
        let end = co + close.len();
        let mut next = slice(&s, 0, start);
        append_all(&mut next, &content);
        append_range(&mut next, &s, end, s.len());
        s = next;
    }
}

// ---------------------------------------------------------------------------
// <column-list><column>a</column><column>b</column></column-list>
// ---------------------------------------------------------------------------

/// The trimmed contents of the `<column>...</column>` pairs of `h`, from `i` on.
pub open spec fn extract_columns_from(h: Seq<char>, i: int) -> Seq<Seq<char>>
    decreases h.len() - i,
{
    match find_from(h, "<column>"@, i) {
        None => Seq::empty(),
        Some(cs) => {
            let a = cs + "<column>"@.len();
            match find_from(h, "</column>"@, a) {
                None => Seq::empty(),
                Some(ce) => if 0 <= i <= cs && cs < a <= ce && ce + "</column>"@.len() <= h.len() {
                    seq![trim(h.subrange(a, ce))] + extract_columns_from(
                        h,
                        ce + "</column>"@.len(),
                    )
                } else {
                    Seq::empty()
                },
            }
        },
    }
}

pub open spec fn extract_columns(h: Seq<char>) -> Seq<Seq<char>> {
    extract_columns_from(h, 0)
}

fn extract_columns_exec(h: &Vec<char>) -> (cols: Vec<Vec<char>>)
    ensures
        views(cols@) == extract_columns(h@),
{
    let open = chars_of("<column>");
    let close = chars_of("</column>");
    proof {
        reveal_strlit("<column>");
        reveal_strlit("</column>");
    }
    let mut cols: Vec<Vec<char>> = Vec::new();
    let mut i: usize = 0;
    loop
        invariant
            i <= h.len(),
            open@ == "<column>"@,
            close@ == "</column>"@,
            open@.len() == 8,
            close@.len() == 9,
            views(cols@) + extract_columns_from(h@, i as int) == extract_columns(h@),
        decreases h.len() - i,
    {
        let cs = match search(h, &open, i) {
            None => {
                assert(views(cols@) + Seq::<Seq<char>>::empty() =~= views(cols@));
                return cols;
            },
            Some(x) => x,
        };
        let a = cs + open.len();
        let ce = match search(h, &close, a) {
            None => {
                assert(views(cols@) + Seq::<Seq<char>>::empty() =~= views(cols@));
                return cols;
            },
            Some(x) => x,
        };
        let col = trim_slice(h, a, ce);
        let ghost before = views(cols@);
        cols.push(col);
        assert(views(cols@) =~= before.push(col@));
        assert(before + (seq![col@] + extract_columns_from(h@, ce + 9)) =~= views(cols@)
            + extract_columns_from(h@, ce + 9));
        i = ce + close.len();
    }
}

/// Each `<column-list>...</column-list>` becomes its columns joined by a
/// horizontal rule; text from `i` on.
pub open spec fn strip_columns_from(s: Seq<char>, i: int) -> Seq<char>
    decreases s.len() - i,
{
    match find_from(s, "<column-list>"@, i) {
        None => s.subrange(i, s.len() as int),
        Some(st) => s.subrange(i, st) + match find_from(s, "</column-list>"@, st) {
            None => s.subrange(st, s.len() as int),
            Some(eo) => {
                let inner = s.subrange(st + "<column-list>"@.len(), eo);
                let next = eo + "</column-list>"@.len();
                if 0 <= i <= st <= eo && next <= s.len() && i < next {
                    join(extract_columns(inner), "\n\n---\n\n"@) + strip_columns_from(s, next)
                } else {
                    s.subrange(st, s.len() as int)
                }
            },
        },
    }
}

pub open spec fn strip_columns(s: Seq<char>) -> Seq<char> {
    strip_columns_from(s, 0)
}

/// Stripping `x + b` from `x.len() + i` is stripping `b` from `i`.
proof fn lemma_strip_columns_shift(x: Seq<char>, b: Seq<char>, i: int)
    requires
        0 <= i <= b.len(),
    ensures
        strip_columns_from(x + b, x.len() + i) == strip_columns_from(b, i),
    decreases b.len() - i,
{
    let open = "<column-list>"@;
    let close = "</column-list>"@;
    reveal_strlit("<column-list>");
    reveal_strlit("</column-list>");
    let s = x + b;
    let n = x.len() as int;
    lemma_find_from_shift(x, b, open, i);
    lemma_find_from(b, open, i);
    match find_from(b, open, i) {
        None => {
            assert(s.subrange(n + i, s.len() as int) =~= b.subrange(i, b.len() as int));
        },
        Some(st) => {
            assert(s.subrange(n + i, n + st) =~= b.subrange(i, st));
            assert(s.subrange(n + st, s.len() as int) =~= b.subrange(st, b.len() as int));
            lemma_find_from_shift(x, b, close, st);
            lemma_find_from(b, close, st);
            match find_from(b, close, st) {
                None => {},
                Some(eo) => {
                    lemma_close_after_open(b, st, open, close);
                    assert(s.subrange(n + st + 13, n + eo) =~= b.subrange(st + 13, eo));
                    let next = eo + 14;
                    if i < next && next <= b.len() {
                        lemma_strip_columns_shift(x, b, next);
                    }
                },
            }
        },
    }
}

/// The first column layout of a text is converted in place and the
/// conversion goes on after it: in `a + "<column-list>" + inner +
/// "</column-list>" + b`, where `a` holds no `<column-list>` and `inner` no
/// `</column-list>`, `a` is kept, the layout becomes its columns joined by a
/// horizontal rule, and `b` is converted.
pub proof fn lemma_strip_columns_first(a: Seq<char>, inner: Seq<char>, b: Seq<char>)
    requires
        !contains(a, "<column-list>"@),
        !contains(inner, "</column-list>"@),
    ensures
        strip_columns(a + "<column-list>"@ + inner + "</column-list>"@ + b) == a + join(
            extract_columns(inner),
            "\n\n---\n\n"@,
        ) + strip_columns(b),
{
    reveal_strlit("<column-list>");
    reveal_strlit("</column-list>");
    let open = "<column-list>"@;
    let close = "</column-list>"@;
    let s = a + open + inner + close + b;
    lemma_first_block(a, open, inner, close, b);
    let na = a.len() as int;
    let eo = na + 13 + inner.len();
    assert(s.subrange(0, na) =~= a);
    assert(s.subrange(na + 13, eo) =~= inner);
    let x = a + open + inner + close;
    assert(s =~= x + b);
    lemma_strip_columns_shift(x, b, 0);
}

/// A `<column-list>` with no `</column-list>` after it is kept, with all the
/// text after it.
pub proof fn lemma_strip_columns_unclosed(a: Seq<char>, inner: Seq<char>)
    requires
        !contains(a, "<column-list>"@),
        !contains(inner, "</column-list>"@),
    ensures
        strip_columns(a + "<column-list>"@ + inner) == a + "<column-list>"@ + inner,
{
    reveal_strlit("<column-list>");
    reveal_strlit("</column-list>");
    let open = "<column-list>"@;
    let close = "</column-list>"@;
    let s = a + open + inner;
    lemma_first_match(a, open, inner);
    let y = open + inner;
    assert(s =~= a + y);
    lemma_find_from_shift(a, y, close, 0);
    lemma_no_close_in_open(open, close, inner);
    crate::text::lemma_find_from_skip(y, close, 0, 13);
    lemma_find_from_shift(open, inner, close, 0);
    lemma_find_from(inner, close, 0);
    assert(s.subrange(0, a.len() as int) + s.subrange(a.len() as int, s.len() as int) =~= s);
}

pub fn strip_columns_exec(s: &Vec<char>) -> (out: Vec<char>)
    ensures
        out@ == strip_columns(s@),
{
    let open = chars_of("<column-list>");
    let close = chars_of("</column-list>");
    let sep = chars_of("\n\n---\n\n");
    proof {
        reveal_strlit("<column-list>");
        reveal_strlit("</column-list>");
    }
    let mut out: Vec<char> = Vec::new();
    let mut i: usize = 0;
    loop
        invariant
            i <= s.len(),
            open@ == "<column-list>"@,
            close@ == "</column-list>"@,
            sep@ == "\n\n---\n\n"@,
            open@.len() == 13,
            close@.len() == 14,
            out@ + strip_columns_from(s@, i as int) == strip_columns(s@),
        decreases s.len() - i,
    {
        let st = match search(s, &open, i) {
            None => {
                append_range(&mut out, s, i, s.len());
                return out;
            },
            Some(x) => x,
        };
        let ghost before = out@;
        append_range(&mut out, s, i, st);
        match search(s, &close, st) {
            None => {
                append_range(&mut out, s, st, s.len());
                assert(out@ =~= before + (s@.subrange(i as int, st as int) + s@.subrange(st as int, s.len() as int)));
                return out;
            },
            Some(eo) => {
                proof {
                    reveal_strlit("<column-list>");
                    reveal_strlit("</column-list>");
                    lemma_close_after_open(s@, st as int, open@, close@);
                }
                let inner = slice(s, st + open.len(), eo);
                let cols = extract_columns_exec(&inner);
                let joined = join_exec(&cols, &sep);
                append_all(&mut out, &joined);
                let next = eo + close.len();
                assert(out@ + strip_columns_from(s@, next as int) =~= before + (s@.subrange(i as int, st as int) + (joined@ + strip_columns_from(s@, next as int))));
                i = next;
            },
        }
    }
}

} // verus!
