//! Page identifiers, API endpoints, retry decisions and error classification
//! for the Notion API client.
use vstd::prelude::*;
use vstd::utf8::is_ascii_chars;

use crate::text::{append_all, chars_of, matches_at_exec, rfind, rsearch, slice, to_string};
use crate::types::{str_eq, NotionErrorResponse};

verus! {

/// The errors of the client and the command line.
#[derive(Debug)]
pub enum NotchError {
    TokenNotSet,
    NotFoundOrForbidden,
    RateLimited,
    Api { status: u16, message: String },
    NoDataSources,
    InvalidUrl(String),
    InvalidInput(String),
    Io(String),
    Http(String),
}

// ---------------------------------------------------------------------------
// Decimal text
// ---------------------------------------------------------------------------

/// The ASCII digit for `d` (0 to 9).
pub open spec fn digit_char(d: int) -> char {
    if d == 0 {
        '0'
    } else if d == 1 {
        '1'
    } else if d == 2 {
        '2'
    } else if d == 3 {
        '3'
    } else if d == 4 {
        '4'
    } else if d == 5 {
        '5'
    } else if d == 6 {
        '6'
    } else if d == 7 {
        '7'
    } else if d == 8 {
        '8'
    } else {
        '9'
    }
}

/// The value of an ASCII digit.
pub open spec fn digit_value(c: char) -> int {
    (c as u32) - ('0' as u32)
}

pub open spec fn is_digit(c: char) -> bool {
    '0' <= c <= '9'
}

/// `n` in decimal, without leading zeros.
pub open spec fn decimal(n: nat) -> Seq<char>
    decreases n,
{
    if n < 10 {
        seq![digit_char(n as int)]
    } else {
        decimal(n / 10).push(digit_char((n % 10) as int))
    }
}

fn digit_char_exec(d: u64) -> (c: char)
    requires
        d < 10,
    ensures
        c == digit_char(d as int),
{
    if d == 0 {
        '0'
    } else if d == 1 {
        '1'
    } else if d == 2 {
        '2'
    } else if d == 3 {
        '3'
    } else if d == 4 {
        '4'
    } else if d == 5 {
        '5'
    } else if d == 6 {
        '6'
    } else if d == 7 {
        '7'
    } else if d == 8 {
        '8'
    } else {
        '9'
    }
}

/// `n` in decimal.
pub fn decimal_exec(n: u64) -> (v: Vec<char>)
    ensures
        v@ == decimal(n as nat),
    decreases n,
{
    if n < 10 {
        vec![digit_char_exec(n)]
    } else {
        let mut v = decimal_exec(n / 10);
        v.push(digit_char_exec(n % 10));
        v
    }
}

/// The value of a sequence of decimal digits.
pub open spec fn digits_value(d: Seq<char>) -> int
    decreases d.len(),
{
    if d.len() == 0 {
        0
    } else {
        digits_value(d.drop_last()) * 10 + digit_value(d.last())
    }
}

/// What `u64::from_str` gives: an optional `+`, then one or more ASCII
/// digits whose value fits in 64 bits; `None` otherwise.
pub open spec fn parse_u64(s: Seq<char>) -> Option<int> {
    if !all_digits(unsigned_digits(s)) {
        None
    } else if digits_value(unsigned_digits(s)) > u64::MAX {
        None
    } else {
        Some(digits_value(unsigned_digits(s)))
    }
}

/// `s` without a leading `+`.
pub open spec fn unsigned_digits(s: Seq<char>) -> Seq<char> {
    if s.len() > 0 && s[0] == '+' {
        s.drop_first()
    } else {
        s
    }
}

/// One or more ASCII digits.
pub open spec fn all_digits(d: Seq<char>) -> bool {
    d.len() > 0 && forall|i: int| 0 <= i < d.len() ==> is_digit(#[trigger] d[i])
}

proof fn lemma_digits_value_grows(d: Seq<char>, k: int)
    requires
        0 <= k <= d.len(),
        forall|i: int| 0 <= i < d.len() ==> is_digit(#[trigger] d[i]),
    ensures
        0 <= digits_value(d.take(k)) <= digits_value(d),
    decreases d.len() - k,
{
    lemma_digits_nonneg(d.take(k));
    if k < d.len() {
        lemma_digits_value_grows(d, k + 1);
        assert(d.take(k + 1).drop_last() =~= d.take(k));
    } else {
        assert(d.take(k) =~= d);
    }
}

proof fn lemma_digits_nonneg(d: Seq<char>)
    requires
        forall|i: int| 0 <= i < d.len() ==> is_digit(#[trigger] d[i]),
    ensures
        digits_value(d) >= 0,
    decreases d.len(),
{
    if d.len() > 0 {
        lemma_digits_nonneg(d.drop_last());
    }
}

/// Parse an unsigned 64-bit decimal as `u64::from_str` does.
pub fn parse_u64_exec(s: &str) -> (r: Option<u64>)
    ensures
        r matches Some(v) ==> parse_u64(s@) == Some(v as int),
        r is None ==> parse_u64(s@) is None,
{
    let chars = chars_of(s);
    let start: usize = if chars.len() > 0 && chars[0] == '+' {
        1
    } else {
        0
    };
    let ghost d = unsigned_digits(s@);
    assert(d =~= chars@.subrange(start as int, chars.len() as int));
    if start == chars.len() {
        return None;
    }
    let mut acc: u64 = 0;
    let mut k: usize = start;
    while k < chars.len()
        invariant
            start <= k <= chars.len(),
            chars@ == s@,
            d == unsigned_digits(s@),
            d =~= chars@.subrange(start as int, chars.len() as int),
            forall|i: int| 0 <= i < k - start ==> is_digit(#[trigger] d[i]),
            acc == digits_value(d.take(k - start)),
        decreases chars.len() - k,
    {
        let c = chars[k];
        if !('0' <= c && c <= '9') {
            assert(d[k - start] == c);
            assert(!is_digit(d[k - start]));
            return None;
        }
        assert(d.take(k + 1 - start).drop_last() =~= d.take(k - start));
        let dv = (c as u32 - '0' as u32) as u64;
        let next = acc.checked_mul(10);
        let next = match next {
            Some(m) => m.checked_add(dv),
            None => None,
        };
        match next {
            Some(v) => {
                acc = v;
            },
            None => {
                proof {
                    assert(d[k - start] == c);
                    assert(digits_value(d.take(k + 1 - start)) == acc * 10 + dv);
                    if forall|i: int| 0 <= i < d.len() ==> is_digit(#[trigger] d[i]) {
                        lemma_digits_value_grows(d, k + 1 - start);
                    }
                }
                return None;
            },
        }
        k = k + 1;
    }
    assert(d.take(k - start) =~= d);
    Some(acc)
}

// ---------------------------------------------------------------------------
// Error messages
// ---------------------------------------------------------------------------

/// The message an error is shown with.
pub open spec fn error_message(e: NotchError) -> Seq<char> {
    match e {
        NotchError::TokenNotSet => "NOTION_TOKEN not set. Create an integration at https://www.notion.so/profile/integrations"@,
        NotchError::NotFoundOrForbidden => "Page not found. Ensure the page is shared with your integration"@,
        NotchError::RateLimited => "Rate limited by Notion API. Please wait and retry"@,
        NotchError::Api { status, message } => "Notion API error ("@ + decimal(status as nat) + "): "@
            + message@,
        NotchError::NoDataSources => "Database has no data sources"@,
        NotchError::InvalidUrl(s) => "Invalid Notion URL: "@ + s@,
        NotchError::InvalidInput(s) => s@,
        NotchError::Io(s) => "Failed to read stdin: "@ + s@,
        NotchError::Http(s) => s@,
    }
}

impl NotchError {
    /// The message the error is shown with.
    pub fn to_string(&self) -> (r: String)
        ensures
            r@ == error_message(*self),
    {
        let v = match self {
            NotchError::TokenNotSet => chars_of(
                "NOTION_TOKEN not set. Create an integration at https://www.notion.so/profile/integrations",
            ),
            NotchError::NotFoundOrForbidden => chars_of(
                "Page not found. Ensure the page is shared with your integration",
            ),
            NotchError::RateLimited => chars_of("Rate limited by Notion API. Please wait and retry"),
            NotchError::Api { status, message } => {
                let mut v = chars_of("Notion API error (");
                append_all(&mut v, &decimal_exec(*status as u64));
                append_all(&mut v, &chars_of("): "));
                append_all(&mut v, &chars_of(message.as_str()));
                v
            },
            NotchError::NoDataSources => chars_of("Database has no data sources"),
            NotchError::InvalidUrl(s) => {
                let mut v = chars_of("Invalid Notion URL: ");
                append_all(&mut v, &chars_of(s.as_str()));
                v
            },
            NotchError::InvalidInput(s) => chars_of(s.as_str()),
            NotchError::Io(s) => {
                let mut v = chars_of("Failed to read stdin: ");
                append_all(&mut v, &chars_of(s.as_str()));
                v
            },
            NotchError::Http(s) => chars_of(s.as_str()),
        };
        to_string(&v)
    }
}

// ---------------------------------------------------------------------------
// Page identifiers
// ---------------------------------------------------------------------------

/// An ASCII hexadecimal digit.
pub open spec fn is_hex_digit(c: char) -> bool {
    ('0' <= c <= '9') || ('a' <= c <= 'f') || ('A' <= c <= 'F')
}

fn is_hex_digit_exec(c: char) -> (b: bool)
    ensures
        b == is_hex_digit(c),
{
    ('0' <= c && c <= '9') || ('a' <= c && c <= 'f') || ('A' <= c && c <= 'F')
}

/// 32 hexadecimal digits. (In bytes or in characters: the same, as hex digits are ASCII.)
pub open spec fn is_hex32(s: Seq<char>) -> bool {
    s.len() == 32 && forall|i: int| 0 <= i < 32 ==> is_hex_digit(#[trigger] s[i])
}

/// A hyphenated UUID: groups of 8, 4, 4, 4 and 12 hexadecimal digits.
pub open spec fn is_uuid(s: Seq<char>) -> bool {
    s.len() == 36 && forall|i: int|
        0 <= i < 36 ==> if i == 8 || i == 13 || i == 18 || i == 23 {
            #[trigger] s[i] == '-'
        } else {
            is_hex_digit(s[i])
        }
}

/// 32 hexadecimal digits as a hyphenated UUID.
pub open spec fn format_uuid(hex: Seq<char>) -> Seq<char> {
    hex.subrange(0, 8) + seq!['-'] + hex.subrange(8, 12) + seq!['-'] + hex.subrange(12, 16)
        + seq!['-'] + hex.subrange(16, 20) + seq!['-'] + hex.subrange(20, 32)
}

/// The last 32 characters, when there are that many and all are hexadecimal digits.
pub open spec fn hex32_suffix(s: Seq<char>) -> Option<Seq<char>> {
    if s.len() >= 32 && is_hex32(s.subrange(s.len() - 32, s.len() as int)) {
        Some(s.subrange(s.len() - 32, s.len() as int))
    } else {
        None
    }
}

pub fn is_hex32_exec(s: &Vec<char>) -> (b: bool)
    ensures
        b == is_hex32(s@),
{
    if s.len() != 32 {
        return false;
    }
    let mut i: usize = 0;
    while i < 32
        invariant
            i <= 32,
            s.len() == 32,
            forall|j: int| 0 <= j < i ==> is_hex_digit(#[trigger] s@[j]),
        decreases 32 - i,
    {
        if !is_hex_digit_exec(s[i]) {
            return false;
        }
        i = i + 1;
    }
    true
}

pub fn is_uuid_exec(s: &Vec<char>) -> (b: bool)
    ensures
        b == is_uuid(s@),
{
    if s.len() != 36 {
        return false;
    }
    let mut i: usize = 0;
    while i < 36
        invariant
            i <= 36,
            s.len() == 36,
            forall|j: int|
                0 <= j < i ==> if j == 8 || j == 13 || j == 18 || j == 23 {
                    #[trigger] s@[j] == '-'
                } else {
                    is_hex_digit(s@[j])
                },
        decreases 36 - i,
    {
        let ok = if i == 8 || i == 13 || i == 18 || i == 23 {
            s[i] == '-'
        } else {
            is_hex_digit_exec(s[i])
        };
        if !ok {
            return false;
        }
        i = i + 1;
    }
    true
}

pub fn format_uuid_exec(hex: &Vec<char>) -> (v: Vec<char>)
    requires
        hex.len() == 32,
    ensures
        v@ == format_uuid(hex@),
{
    let mut v = slice(hex, 0, 8);
    v.push('-');
    append_all(&mut v, &slice(hex, 8, 12));
    v.push('-');
    append_all(&mut v, &slice(hex, 12, 16));
    v.push('-');
    append_all(&mut v, &slice(hex, 16, 20));
    v.push('-');
    append_all(&mut v, &slice(hex, 20, 32));
    assert(v@ =~= format_uuid(hex@));
    v
}

/// What a URL parses to, as far as page identifiers are concerned: the host,
/// the (percent-encoded) path and the decoded query pairs.
#[derive(Debug)]
pub struct UrlParts {
    pub host: Option<String>,
    pub path: String,
    pub query: Vec<(String, String)>,
}

impl View for UrlParts {
    type V = (Option<Seq<char>>, Seq<char>, Seq<(Seq<char>, Seq<char>)>);

    open spec fn view(&self) -> Self::V {
        (
            match self.host {
                Some(h) => Some(h@),
                None => None,
            },
            self.path@,
            self.query@.map_values(|p: (String, String)| (p.0@, p.1@)),
        )
    }
}

/// What `url::Url::parse` makes of a text, read through `host_str`, `path`
/// and `query_pairs`; `None` where it is no absolute URL.
pub uninterp spec fn url_parts(input: Seq<char>) -> Option<(Option<Seq<char>>, Seq<char>, Seq<(Seq<char>, Seq<char>)>)>;

/// Parses `input` with `url::Url::parse` and reads the result's host
/// (`host_str`), path (`path`) and decoded query pairs (`query_pairs`).
/// Trusted: the result is the named [`url_parts`] of the input, and the path
/// is ASCII, as the url crate documents ("a percent-encoded ASCII string").
#[verifier::external_body]
fn parse_url(input: &str) -> (r: Option<UrlParts>)
    ensures
        r is None ==> url_parts(input@) is None,
        r matches Some(p) ==> url_parts(input@) == Some(p@) && is_ascii_chars(p.path@),
{
    let u = url::Url::parse(input).ok()?;
    Some(UrlParts {
        host: u.host_str().map(|h| h.to_string()),
        path: u.path().to_string(),
        query: u.query_pairs().map(|(k, v)| (k.into_owned(), v.into_owned())).collect(),
    })
}

/// `s` ends with `suffix`.
pub open spec fn ends_with(s: Seq<char>, suffix: Seq<char>) -> bool {
    suffix.len() <= s.len() && s.subrange(s.len() - suffix.len(), s.len() as int) == suffix
}

/// A Notion host: `notion.so`, `notion.site`, or a subdomain of either.
pub open spec fn is_notion_host(h: Seq<char>) -> bool {
    h == "notion.so"@ || ends_with(h, ".notion.so"@) || h == "notion.site"@ || ends_with(
        h,
        ".notion.site"@,
    )
}

/// The part of a path after its last `/`.
pub open spec fn last_segment(path: Seq<char>) -> Seq<char> {
    match rfind(path, seq!['/']) {
        Some(k) => path.subrange(k + 1, path.len() as int),
        None => path,
    }
}

/// The first query pair, from `i` on, named `p` with a 32-digit hex value,
/// as a UUID.
pub open spec fn page_id_from_query(q: Seq<(Seq<char>, Seq<char>)>, i: int) -> Option<Seq<char>>
    decreases q.len() - i,
{
    if i < 0 || i >= q.len() {
        None
    } else if q[i].0 == seq!['p'] && is_hex32(q[i].1) {
        Some(format_uuid(q[i].1))
    } else {
        page_id_from_query(q, i + 1)
    }
}

/// The page id a parsed URL names: only Notion hosts count; the last path
/// segment as a UUID, else its 32-digit hex suffix, else a `p` query value.
pub open spec fn page_id_from_url(
    url: Option<(Option<Seq<char>>, Seq<char>, Seq<(Seq<char>, Seq<char>)>)>,
) -> Option<Seq<char>> {
    match url {
        None => None,
        Some((host, path, query)) => {
            let h = match host {
                Some(h) => h,
                None => Seq::empty(),
            };
            if !is_notion_host(h) {
                None
            } else {
                let last = last_segment(path);
                if is_uuid(last) {
                    Some(last)
                } else {
                    match hex32_suffix(last) {
                        Some(hex) => Some(format_uuid(hex)),
                        None => page_id_from_query(query, 0),
                    }
                }
            }
        },
    }
}

/// The page id in an argument: a UUID as it is, 32 hex digits hyphenated,
/// else whatever the URL it parses to names.
pub open spec fn page_id_of(input: Seq<char>) -> Option<Seq<char>> {
    if is_uuid(input) {
        Some(input)
    } else if is_hex32(input) {
        Some(format_uuid(input))
    } else {
        page_id_from_url(url_parts(input))
    }
}

fn ends_with_exec(s: &Vec<char>, suffix: &str) -> (b: bool)
    ensures
        b == ends_with(s@, suffix@),
{
    let t = chars_of(suffix);
    if t.len() > s.len() {
        return false;
    }
    let m = matches_at_exec(s, s.len() - t.len(), &t);
    m
}

/// The view of an optional parse result.
pub open spec fn parts_view(parts: Option<UrlParts>) -> Option<(Option<Seq<char>>, Seq<char>, Seq<(Seq<char>, Seq<char>)>)> {
    match parts {
        Some(p) => Some(p@),
        None => None,
    }
}

/// The page id named by an argument that is neither a UUID nor 32 hex digits,
/// given what the URL parser made of it.
pub fn page_id_from_url_parts(input: &str, parts: Option<UrlParts>) -> (r: Result<String, NotchError>)
    requires
        parts matches Some(p) ==> is_ascii_chars(p.path@),
    ensures
        r matches Ok(id) ==> page_id_from_url(parts_view(parts)) == Some(id@),
        r is Err ==> page_id_from_url(parts_view(parts)) is None,
        r matches Err(e) ==> e matches NotchError::InvalidUrl(s) && s@ == input@,
{
    let ghost url_view = parts_view(parts);
    let p = match parts {
        None => return Err(NotchError::InvalidUrl(to_string(&chars_of(input)))),
        Some(p) => p,
    };
    let host = match &p.host {
        Some(h) => chars_of(h.as_str()),
        None => Vec::new(),
    };
    let notion = str_eq_vec(&host, "notion.so") || ends_with_exec(&host, ".notion.so")
        || str_eq_vec(&host, "notion.site") || ends_with_exec(&host, ".notion.site");
    if !notion {
        return Err(NotchError::InvalidUrl(to_string(&chars_of(input))));
    }
    let path = chars_of(p.path.as_str());
    let slash = vec!['/'];
    assert(slash@ =~= seq!['/']);
    let last = match rsearch(&path, &slash) {
        Some(k) => slice(&path, k + 1, path.len()),
        None => path,
    };
    if is_uuid_exec(&last) {
        return Ok(to_string(&last));
    }
    if last.len() >= 32 {
        let suffix = slice(&last, last.len() - 32, last.len());
        if is_hex32_exec(&suffix) {
            return Ok(to_string(&format_uuid_exec(&suffix)));
        }
    }
    let ghost qv = p@.2;
    assert(page_id_from_url(url_view) == page_id_from_query(qv, 0));
    let mut i: usize = 0;
    while i < p.query.len()
        invariant
            i <= p.query.len(),
            page_id_from_url(url_view) == page_id_from_query(qv, 0),
            url_view == parts_view(parts),
            qv == p.query@.map_values(|q: (String, String)| (q.0@, q.1@)),
            page_id_from_query(qv, 0) == page_id_from_query(qv, i as int),
        decreases p.query.len() - i,
    {
        let key = chars_of(p.query[i].0.as_str());
        let value = chars_of(p.query[i].1.as_str());
        assert(qv[i as int] == (key@, value@));
        if key.len() == 1 && key[0] == 'p' && is_hex32_exec(&value) {
            assert(key@ =~= seq!['p']);
            return Ok(to_string(&format_uuid_exec(&value)));
        }
        proof {
            if key@ == seq!['p'] {
                assert(key@.len() == 1);
            }
        }
        i = i + 1;
    }
    Err(NotchError::InvalidUrl(to_string(&chars_of(input))))
}

fn str_eq_vec(s: &Vec<char>, t: &str) -> (b: bool)
    ensures
        b == (s@ == t@),
{
    let u = chars_of(t);
    if u.len() != s.len() {
        return false;
    }
    let m = matches_at_exec(s, 0, &u);
    assert(s@.subrange(0, u@.len() as int) =~= s@);
    m
}

/// The page id in an argument: a UUID, 32 hex digits, or a Notion URL
/// (`notion.so`, `notion.site` or their subdomains) whose last path segment
/// ends in the id or whose `p` query parameter holds it.
pub fn parse_page_id(input: &str) -> (r: Result<String, NotchError>)
    ensures
        r matches Ok(id) ==> page_id_of(input@) == Some(id@),
        r is Err ==> page_id_of(input@) is None,
        r matches Err(e) ==> e matches NotchError::InvalidUrl(s) && s@ == input@,
{
    let chars = chars_of(input);
    if is_uuid_exec(&chars) {
        return Ok(to_string(&chars));
    }
    if is_hex32_exec(&chars) {
        return Ok(to_string(&format_uuid_exec(&chars)));
    }
    let parts = parse_url(input);
    page_id_from_url_parts(input, parts)
}

// ---------------------------------------------------------------------------
// Requests
// ---------------------------------------------------------------------------

/// The API's base URL.
pub open spec fn notion_api_base() -> Seq<char> {
    "https://api.notion.com/v1"@
}

pub fn notion_api_base_exec() -> (s: String)
    ensures
        s@ == notion_api_base(),
{
    to_string(&chars_of("https://api.notion.com/v1"))
}

/// The API version sent with every request.
pub fn notion_version() -> (s: String)
    ensures
        s@ == "2026-03-11"@,
{
    to_string(&chars_of("2026-03-11"))
}

/// The `Authorization` header value for a token.
pub fn bearer_value(token: &str) -> (s: String)
    ensures
        s@ == "Bearer "@ + token@,
{
    let mut v = chars_of("Bearer ");
    append_all(&mut v, &chars_of(token));
    to_string(&v)
}

/// The API endpoints.
#[derive(Debug)]
pub enum Endpoint {
    PageMarkdown,
    Page,
    Database,
    DataSourceQuery,
    Search,
}

/// The URL of an endpoint under `base`, for the object `id` (unused by search).
pub open spec fn endpoint_url(base: Seq<char>, endpoint: Endpoint, id: Seq<char>) -> Seq<char> {
    match endpoint {
        Endpoint::PageMarkdown => base + "/pages/"@ + id + "/markdown"@,
        Endpoint::Page => base + "/pages/"@ + id,
        Endpoint::Database => base + "/databases/"@ + id,
        Endpoint::DataSourceQuery => base + "/data_sources/"@ + id + "/query"@,
        Endpoint::Search => base + "/search"@,
    }
}

pub fn endpoint_url_exec(base: &str, endpoint: Endpoint, id: &str) -> (s: String)
    ensures
        s@ == endpoint_url(base@, endpoint, id@),
{
    let mut v = chars_of(base);
    match endpoint {
        Endpoint::PageMarkdown => {
            append_all(&mut v, &chars_of("/pages/"));
            append_all(&mut v, &chars_of(id));
            append_all(&mut v, &chars_of("/markdown"));
        },
        Endpoint::Page => {
            append_all(&mut v, &chars_of("/pages/"));
            append_all(&mut v, &chars_of(id));
        },
        Endpoint::Database => {
            append_all(&mut v, &chars_of("/databases/"));
            append_all(&mut v, &chars_of(id));
        },
        Endpoint::DataSourceQuery => {
            append_all(&mut v, &chars_of("/data_sources/"));
            append_all(&mut v, &chars_of(id));
            append_all(&mut v, &chars_of("/query"));
        },
        Endpoint::Search => {
            append_all(&mut v, &chars_of("/search"));
        },
    }
    to_string(&v)
}

/// How many times a request is retried before a last try.
pub const MAX_RETRIES: u32 = 3;

/// What to do after a response.
#[derive(Debug)]
pub enum RetryStep {
    /// Hand the response on.
    Done,
    /// Wait this many seconds, then send again.
    WaitSeconds(u64),
    /// Wait this many milliseconds, then send again.
    WaitMillis(u64),
}

/// The decision after a response with `status` on try `attempt` (from 0):
/// once [`MAX_RETRIES`] retries have been made the response is handed on;
/// before that, 429 waits for `Retry-After` seconds (1 when absent or not a
/// number), a 5xx waits 100, 200 or 400 ms, anything else is handed on.
pub open spec fn retry_step(attempt: u32, status: u16, retry_after: Option<Seq<char>>) -> RetryStep {
    if attempt >= MAX_RETRIES {
        RetryStep::Done
    } else if status == 429 {
        let wait = match retry_after {
            Some(v) => match parse_u64(v) {
                Some(n) => n as u64,
                None => 1,
            },
            None => 1,
        };
        RetryStep::WaitSeconds(wait)
    } else if 500 <= status <= 599 {
        RetryStep::WaitMillis((100 * pow2(attempt as nat)) as u64)
    } else {
        RetryStep::Done
    }
}

/// 2 to the power `n`.
pub open spec fn pow2(n: nat) -> nat
    decreases n,
{
    if n == 0 {
        1
    } else {
        2 * pow2((n - 1) as nat)
    }
}

pub fn retry_step_exec(attempt: u32, status: u16, retry_after: Option<&str>) -> (r: RetryStep)
    ensures
        r == retry_step(
            attempt,
            status,
            match retry_after {
                Some(v) => Some(v@),
                None => None,
            },
        ),
{
    if attempt >= MAX_RETRIES {
        RetryStep::Done
    } else if status == 429 {
        let wait = match retry_after {
            Some(v) => match parse_u64_exec(v) {
                Some(n) => n,
                None => 1,
            },
            None => 1,
        };
        RetryStep::WaitSeconds(wait)
    } else if 500 <= status && status <= 599 {
        let ms: u64 = if attempt == 0 {
            100
        } else if attempt == 1 {
            200
        } else {
            400
        };
        assert(pow2(1) == 2 && pow2(2) == 4) by {
            assert(pow2(0) == 1);
        }
        RetryStep::WaitMillis(ms)
    } else {
        RetryStep::Done
    }
}

/// The error a response with `status` means (none for 200), given its error
/// body where it parsed: 403 and 404 are "not found", 429 is "rate limited",
/// other statuses carry the body's status and message, or the HTTP status and
/// `HTTP <status>` when the body did not parse.
pub open spec fn response_error(status: u16, body: Option<(u16, Seq<char>)>) -> Option<(u16, Seq<char>)> {
    if status == 200 || status == 403 || status == 404 || status == 429 {
        None
    } else {
        match body {
            Some((s, m)) => Some((s, m)),
            None => Some((status, "HTTP "@ + decimal(status as nat))),
        }
    }
}

/// The error for a failing response (`None` for 200, whose body is the result).
pub fn classify_response(status: u16, body: Option<NotionErrorResponse>) -> (r: Option<NotchError>)
    ensures
        status == 200 <==> r is None,
        (status == 403 || status == 404) ==> r == Some(NotchError::NotFoundOrForbidden),
        status == 429 ==> r == Some(NotchError::RateLimited),
        r matches Some(NotchError::Api { status: s, message: m }) ==> response_error(
            status,
            match body {
                Some(b) => Some((b.status, b.message@)),
                None => None,
            },
        ) == Some((s, m@)),
        !(status == 200 || status == 403 || status == 404 || status == 429) ==> r matches Some(
            NotchError::Api { .. },
        ),
{
    if status == 200 {
        None
    } else if status == 403 || status == 404 {
        Some(NotchError::NotFoundOrForbidden)
    } else if status == 429 {
        Some(NotchError::RateLimited)
    } else {
        match body {
            Some(b) => Some(NotchError::Api { status: b.status, message: b.message }),
            None => {
                let mut v = chars_of("HTTP ");
                append_all(&mut v, &decimal_exec(status as u64));
                Some(NotchError::Api { status, message: to_string(&v) })
            },
        }
    }
}

// ---------------------------------------------------------------------------
// Laws
// ---------------------------------------------------------------------------

/// 32 hex digits, hyphenated, make a UUID.
pub proof fn lemma_format_uuid_is_uuid(hex: Seq<char>)
    requires
        is_hex32(hex),
    ensures
        is_uuid(format_uuid(hex)),
{
    let u = format_uuid(hex);
    assert(u.len() == 36);
    assert forall|i: int| 0 <= i < 36 implies if i == 8 || i == 13 || i == 18 || i == 23 {
        #[trigger] u[i] == '-'
    } else {
        is_hex_digit(u[i])
    } by {
        if i < 8 {
            assert(u[i] == hex[i]);
        } else if i == 8 {
        } else if i < 13 {
            assert(u[i] == hex[i - 1]);
        } else if i == 13 {
        } else if i < 18 {
            assert(u[i] == hex[i - 2]);
        } else if i == 18 {
        } else if i < 23 {
            assert(u[i] == hex[i - 3]);
        } else if i == 23 {
        } else {
            assert(u[i] == hex[i - 4]);
        }
    }
}

proof fn lemma_query_id_is_uuid(q: Seq<(Seq<char>, Seq<char>)>, i: int)
    ensures
        page_id_from_query(q, i) matches Some(id) ==> is_uuid(id),
    decreases q.len() - i,
{
    if 0 <= i < q.len() {
        if q[i].0 == seq!['p'] && is_hex32(q[i].1) {
            lemma_format_uuid_is_uuid(q[i].1);
        } else {
            lemma_query_id_is_uuid(q, i + 1);
        }
    }
}

/// Every page id found is a hyphenated UUID, and reading it again gives it back.
pub proof fn lemma_page_id_canonical(input: Seq<char>)
    ensures
        page_id_of(input) matches Some(id) ==> is_uuid(id) && page_id_of(id) == Some(id),
{
    if is_uuid(input) {
    } else if is_hex32(input) {
        lemma_format_uuid_is_uuid(input);
    } else {
        match url_parts(input) {
            None => {},
            Some((host, path, query)) => {
                let last = last_segment(path);
                match hex32_suffix(last) {
                    Some(hex) => lemma_format_uuid_is_uuid(hex),
                    None => lemma_query_id_is_uuid(query, 0),
                }
            },
        }
    }
}

/// An argument that is neither a UUID nor 32 hex digits names a page only as
/// a URL on `notion.so` or `notion.site` (or a subdomain of either).
pub proof fn lemma_url_ids_need_notion_host(input: Seq<char>)
    requires
        !is_uuid(input),
        !is_hex32(input),
        page_id_of(input) is Some,
    ensures
        url_parts(input) matches Some((host, path, query)) && is_notion_host(
            match host {
                Some(h) => h,
                None => Seq::empty(),
            },
        ),
{
}

} // verus!
