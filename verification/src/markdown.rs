//! The text printed for a page: title heading, sanitized body, size cap.
use vstd::prelude::*;
use vstd::utf8::{char_is_scalar, encode_scalar, encode_utf8};

use crate::sanitize::{sanitize, sanitize_markdown};
use crate::text::{append_all, chars_of, slice, to_string};

verus! {

/// Output larger than this many bytes (UTF-8) is cut.
pub const MAX_OUTPUT_BYTES: usize = 100 * 1024;

/// What is printed to stdout and the warnings for stderr.
#[derive(Debug)]
pub struct FormatResult {
    pub stdout: String,
    pub warnings: Vec<String>,
}

/// Bytes in the UTF-8 encoding of `c` (what `char::len_utf8` returns).
pub open spec fn utf8_width(c: char) -> nat {
    let u = c as u32;
    if u <= 0x7F {
        1
    } else if u <= 0x7FF {
        2
    } else if u <= 0xFFFF {
        3
    } else {
        4
    }
}

/// Bytes in the UTF-8 encoding of `s`.
pub open spec fn utf8_len(s: Seq<char>) -> nat
    decreases s.len(),
{
    if s.len() == 0 {
        0
    } else {
        utf8_width(s[0]) + utf8_len(s.drop_first())
    }
}

/// `utf8_len` is the length of vstd's UTF-8 encoding, and so what `str::len` returns.
pub proof fn lemma_utf8_len_encode(s: Seq<char>)
    ensures
        utf8_len(s) == encode_utf8(s).len(),
    decreases s.len(),
{
    if s.len() > 0 {
        char_is_scalar(s[0]);
        assert(encode_scalar(s[0] as u32).len() == utf8_width(s[0]));
        lemma_utf8_len_encode(s.drop_first());
    }
}

/// The longest prefix of `s` from `i` on whose UTF-8 encoding fits in `budget` bytes.
pub open spec fn fit_prefix_from(s: Seq<char>, i: int, budget: int) -> Seq<char>
    decreases s.len() - i,
{
    if i < 0 || i >= s.len() || utf8_width(s[i]) > budget {
        Seq::empty()
    } else {
        seq![s[i]] + fit_prefix_from(s, i + 1, budget - utf8_width(s[i]))
    }
}

/// `s` cut to the longest prefix of at most `max` bytes: a cut that never
/// splits a character.
pub open spec fn truncate_utf8(s: Seq<char>, max: int) -> Seq<char> {
    fit_prefix_from(s, 0, max)
}

pub open spec fn api_truncation_warning() -> Seq<char> {
    "Warning: Page content was truncated by Notion API (page too large)"@
}

pub open spec fn size_warning() -> Seq<char> {
    "(truncated: output exceeded 100KB)"@
}

/// The page text before the size cap: `# title`, a blank line and the body,
/// or the body alone for an empty title.
pub open spec fn page_text(title: Seq<char>, body: Seq<char>) -> Seq<char> {
    if title.len() == 0 {
        body
    } else {
        "# "@ + title + "\n\n"@ + body
    }
}

/// What a page with the given title and (already sanitized) body prints.
pub open spec fn composed_stdout(title: Seq<char>, body: Seq<char>) -> Seq<char> {
    let full = page_text(title, body);
    if utf8_len(full) > MAX_OUTPUT_BYTES {
        truncate_utf8(full, MAX_OUTPUT_BYTES as int)
    } else {
        full
    }
}

/// The warnings for a page: API truncation first, then the size cap.
pub open spec fn composed_warnings(title: Seq<char>, body: Seq<char>, truncated_by_api: bool) -> Seq<Seq<char>> {
    (if truncated_by_api {
        seq![api_truncation_warning()]
    } else {
        Seq::empty()
    }) + (if utf8_len(page_text(title, body)) > MAX_OUTPUT_BYTES {
        seq![size_warning()]
    } else {
        Seq::empty()
    })
}

/// The views of a vector of strings.
pub open spec fn string_views(v: Seq<String>) -> Seq<Seq<char>> {
    v.map_values(|x: String| x@)
}

fn utf8_width_exec(c: char) -> (w: usize)
    ensures
        w == utf8_width(c),
{
    let u = c as u32;
    if u <= 0x7F {
        1
    } else if u <= 0x7FF {
        2
    } else if u <= 0xFFFF {
        3
    } else {
        4
    }
}

/// The longest prefix of `s` that fits in `max` bytes, and whether all of
/// `s` fits.
fn fit_prefix(s: &Vec<char>, max: usize) -> (r: (Vec<char>, bool))
    ensures
        r.0@ == truncate_utf8(s@, max as int),
        r.1 == (utf8_len(s@) <= max),
{
    let mut i: usize = 0;
    let mut budget: usize = max;
    assert(s@.subrange(0, s.len() as int) =~= s@);
    assert(s@.subrange(0, 0) + fit_prefix_from(s@, 0, max as int) =~= fit_prefix_from(s@, 0, max as int));
    while i < s.len() && utf8_width_exec(s[i]) <= budget
        invariant
            i <= s.len(),
            budget <= max,
            fit_prefix_from(s@, 0, max as int) == s@.subrange(0, i as int) + fit_prefix_from(
                s@,
                i as int,
                budget as int,
            ),
            utf8_len(s@) <= max <==> utf8_len(s@.subrange(i as int, s.len() as int)) <= budget,
        decreases s.len() - i,
    {
        let w = utf8_width_exec(s[i]);
        assert(s@.subrange(0, i + 1) =~= s@.subrange(0, i as int).push(s@[i as int]));
        assert(s@.subrange(0, i as int) + (seq![s@[i as int]] + fit_prefix_from(s@, i + 1, budget - w))
            =~= s@.subrange(0, i + 1) + fit_prefix_from(s@, i + 1, budget - w));
        assert(s@.subrange(i as int, s.len() as int).drop_first() =~= s@.subrange(i + 1, s.len() as int));
        budget = budget - w;
        i = i + 1;
    }
    let fits = i == s.len();
    proof {
        assert(fit_prefix_from(s@, i as int, budget as int) =~= Seq::<char>::empty());
        if i < s.len() {
            lemma_utf8_len_ge_first(s@.subrange(i as int, s.len() as int));
        }
        assert(s@.subrange(s.len() as int, s.len() as int) =~= Seq::<char>::empty());
    }
    (slice(s, 0, i), fits)
}

proof fn lemma_utf8_len_ge_first(s: Seq<char>)
    requires
        s.len() > 0,
    ensures
        utf8_len(s) >= utf8_width(s[0]),
{
}

/// The truncated prefix never exceeds its byte budget.
pub proof fn lemma_fit_prefix_bound(s: Seq<char>, i: int, budget: int)
    requires
        budget >= 0,
    ensures
        utf8_len(fit_prefix_from(s, i, budget)) <= budget,
    decreases s.len() - i,
{
    if !(i < 0 || i >= s.len() || utf8_width(s[i]) > budget) {
        lemma_fit_prefix_bound(s, i + 1, budget - utf8_width(s[i]));
        let rest = fit_prefix_from(s, i + 1, budget - utf8_width(s[i]));
        assert((seq![s[i]] + rest).drop_first() =~= rest);
    }
}

/// The truncated text is a prefix of the text it was cut from.
pub proof fn lemma_fit_prefix_is_prefix(s: Seq<char>, i: int, budget: int)
    requires
        0 <= i <= s.len(),
    ensures
        fit_prefix_from(s, i, budget).len() <= s.len() - i,
        fit_prefix_from(s, i, budget) =~= s.subrange(i, i + fit_prefix_from(s, i, budget).len()),
    decreases s.len() - i,
{
    if !(i >= s.len() || utf8_width(s[i]) > budget) {
        lemma_fit_prefix_is_prefix(s, i + 1, budget - utf8_width(s[i]));
    }
}

/// The truncated prefix is the longest that fits: the next character would
/// go over the budget.
pub proof fn lemma_fit_prefix_longest(s: Seq<char>, i: int, budget: int)
    requires
        0 <= i <= s.len(),
    ensures
        i + fit_prefix_from(s, i, budget).len() < s.len() ==> utf8_len(fit_prefix_from(s, i, budget))
            + utf8_width(s[i + fit_prefix_from(s, i, budget).len()]) > budget,
    decreases s.len() - i,
{
    if !(i >= s.len() || utf8_width(s[i]) > budget) {
        let w = utf8_width(s[i]);
        lemma_fit_prefix_longest(s, i + 1, budget - w);
        let rest = fit_prefix_from(s, i + 1, budget - w);
        assert((seq![s[i]] + rest).drop_first() =~= rest);
        assert((seq![s[i]] + rest)[0] == s[i]);
    } else if i < s.len() {
        assert(fit_prefix_from(s, i, budget) =~= Seq::<char>::empty());
    }
}

/// Put a page's title and sanitized body together, capped at
/// [`MAX_OUTPUT_BYTES`] bytes.
pub fn compose_output(title: &str, body: &str, truncated_by_api: bool) -> (r: FormatResult)
    ensures
        r.stdout@ == composed_stdout(title@, body@),
        string_views(r.warnings@) == composed_warnings(title@, body@, truncated_by_api),
{
    let mut warnings: Vec<String> = Vec::new();
    if truncated_by_api {
        warnings.push(to_string(&chars_of(
            "Warning: Page content was truncated by Notion API (page too large)",
        )));
    }
    let ghost first = string_views(warnings@);
    assert(first =~= (if truncated_by_api {
        seq![api_truncation_warning()]
    } else {
        Seq::<Seq<char>>::empty()
    }));
    let body_chars = chars_of(body);
    let title_chars = chars_of(title);
    let full = if title_chars.len() == 0 {
        body_chars
    } else {
        let mut v = chars_of("# ");
        append_all(&mut v, &title_chars);
        append_all(&mut v, &chars_of("\n\n"));
        append_all(&mut v, &body_chars);
        v
    };
    let (prefix, fits) = fit_prefix(&full, MAX_OUTPUT_BYTES);
    let stdout = if fits {
        to_string(&full)
    } else {
        warnings.push(to_string(&chars_of("(truncated: output exceeded 100KB)")));
        to_string(&prefix)
    };
    assert(string_views(warnings@) =~= composed_warnings(title@, body@, truncated_by_api));
    FormatResult { stdout, warnings }
}

/// Format a page for output: the sanitized body under a `# title` heading
/// (no heading for an empty title), cut at 100KB on a character boundary,
/// with warnings for API-side truncation and for the cut.
pub fn format_output(title: &str, markdown: &str, truncated_by_api: bool) -> (r: FormatResult)
    requires
        sanitize_markdown(markdown@) is Some,
    ensures
        r.stdout@ == composed_stdout(title@, sanitize_markdown(markdown@)->0),
        string_views(r.warnings@) == composed_warnings(
            title@,
            sanitize_markdown(markdown@)->0,
            truncated_by_api,
        ),
{
    let sanitized = sanitize(markdown);
    compose_output(title, sanitized.as_str(), truncated_by_api)
}

/// The printed text never exceeds the byte cap (its UTF-8 encoding, whose
/// length `str::len` returns, has at most 100KB), and is the beginning of the
/// full page text (a heading line for a non-empty title, then the body): all
/// of it when it fits, else the longest beginning that fits, so the cut is at
/// the last character boundary within the cap.
pub proof fn lemma_output_within_cap(title: Seq<char>, body: Seq<char>)
    ensures
        utf8_len(composed_stdout(title, body)) <= MAX_OUTPUT_BYTES,
        encode_utf8(composed_stdout(title, body)).len() <= MAX_OUTPUT_BYTES,
        page_text(title, body).subrange(0, composed_stdout(title, body).len() as int)
            == composed_stdout(title, body),
        composed_stdout(title, body).len() <= page_text(title, body).len(),
        utf8_len(page_text(title, body)) <= MAX_OUTPUT_BYTES ==> composed_stdout(title, body)
            == page_text(title, body),
        composed_stdout(title, body).len() < page_text(title, body).len() ==> utf8_len(
            composed_stdout(title, body),
        ) + utf8_width(page_text(title, body)[composed_stdout(title, body).len() as int])
            > MAX_OUTPUT_BYTES,
{
    lemma_fit_prefix_longest(page_text(title, body), 0, MAX_OUTPUT_BYTES as int);
    let full = page_text(title, body);
    lemma_fit_prefix_bound(full, 0, MAX_OUTPUT_BYTES as int);
    lemma_fit_prefix_is_prefix(full, 0, MAX_OUTPUT_BYTES as int);
    lemma_utf8_len_encode(composed_stdout(title, body));
    assert(full.subrange(0, full.len() as int) =~= full);
}

} // verus!
