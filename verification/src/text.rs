//! Character-sequence toolkit: searching, replacing, trimming and joining
//! over `Seq<char>`, with executable counterparts over `Vec<char>`.
use vstd::prelude::*;

verus! {

// ---------------------------------------------------------------------------
// Searching
// ---------------------------------------------------------------------------

/// `p` occurs in `s` starting at index `i`.
pub open spec fn matches_at(s: Seq<char>, i: int, p: Seq<char>) -> bool {
    0 <= i && i + p.len() <= s.len() && s.subrange(i, i + p.len()) =~= p
}

/// Index of the first occurrence of `p` in `s` at or after `from`.
pub open spec fn find_from(s: Seq<char>, p: Seq<char>, from: int) -> Option<int>
    decreases s.len() - from,
{
    if from < 0 || from + p.len() > s.len() {
        None
    } else if matches_at(s, from, p) {
        Some(from)
    } else {
        find_from(s, p, from + 1)
    }
}

/// Index of the first occurrence of `p` in `s`.
pub open spec fn find(s: Seq<char>, p: Seq<char>) -> Option<int> {
    find_from(s, p, 0)
}

/// `p` occurs somewhere in `s`.
pub open spec fn contains(s: Seq<char>, p: Seq<char>) -> bool {
    find(s, p) is Some
}

/// Index of the last occurrence of `p` in `s` that starts at or before `i`.
pub open spec fn rfind_upto(s: Seq<char>, p: Seq<char>, i: int) -> Option<int>
    decreases i + 1,
{
    if i < 0 {
        None
    } else if matches_at(s, i, p) {
        Some(i)
    } else {
        rfind_upto(s, p, i - 1)
    }
}

/// Index of the last occurrence of `p` in `s`.
pub open spec fn rfind(s: Seq<char>, p: Seq<char>) -> Option<int> {
    rfind_upto(s, p, s.len() - p.len())
}

/// What `find_from` returns: the first match at or after `from`, or none there.
pub proof fn lemma_find_from(s: Seq<char>, p: Seq<char>, from: int)
    requires
        from >= 0,
    ensures
        find_from(s, p, from) matches Some(i) ==> {
            &&& from <= i
            &&& i + p.len() <= s.len()
            &&& matches_at(s, i, p)
            &&& forall|j: int| from <= j < i ==> !matches_at(s, j, p)
        },
        find_from(s, p, from) is None ==> forall|j: int| from <= j ==> !matches_at(s, j, p),
    decreases s.len() - from,
{
    if from + p.len() > s.len() {
    } else if matches_at(s, from, p) {
    } else {
        lemma_find_from(s, p, from + 1);
    }
}

/// A match found between `from` and a later start point is also the first one from there.
pub proof fn lemma_find_from_skip(s: Seq<char>, p: Seq<char>, from: int, mid: int)
    requires
        0 <= from <= mid,
        forall|j: int| from <= j < mid ==> !matches_at(s, j, p),
    ensures
        find_from(s, p, from) == find_from(s, p, mid),
    decreases mid - from,
{
    if from < mid {
        lemma_find_from_skip(s, p, from + 1, mid);
        if from + p.len() > s.len() {
            lemma_find_from(s, p, mid);
        }
    }
}

/// What `rfind_upto` returns: the last match at or before `i`, or none there.
pub proof fn lemma_rfind_upto(s: Seq<char>, p: Seq<char>, i: int)
    ensures
        rfind_upto(s, p, i) matches Some(k) ==> {
            &&& 0 <= k <= i
            &&& matches_at(s, k, p)
            &&& forall|j: int| k < j <= i ==> !matches_at(s, j, p)
        },
        rfind_upto(s, p, i) is None ==> forall|j: int| 0 <= j <= i ==> !matches_at(s, j, p),
    decreases i + 1,
{
    if i >= 0 && !matches_at(s, i, p) {
        lemma_rfind_upto(s, p, i - 1);
    }
}

/// Searching `x + b` from `x.len() + i` finds what searching `b` from `i`
/// finds, moved by `x.len()`.
pub proof fn lemma_find_from_shift(x: Seq<char>, b: Seq<char>, p: Seq<char>, i: int)
    requires
        0 <= i,
    ensures
        find_from(x + b, p, x.len() + i) == match find_from(b, p, i) {
            Some(j) => Some(j + x.len()),
            None => None,
        },
    decreases b.len() - i,
{
    let s = x + b;
    let n = x.len() as int;
    if i + p.len() <= b.len() {
        assert(s.subrange(n + i, n + i + p.len()) =~= b.subrange(i, i + p.len()));
        if !matches_at(b, i, p) {
            lemma_find_from_shift(x, b, p, i + 1);
        }
    }
}

/// `p` starts with `<` and holds no other `<`.
pub open spec fn single_lt(p: Seq<char>) -> bool {
    p.len() >= 2 && p[0] == '<' && forall|k: int| 1 <= k < p.len() ==> #[trigger] p[k] != '<'
}

/// In `a + p + rest`, where `a` holds no `p`, the first `p` comes right
/// after `a`.
pub proof fn lemma_first_match(a: Seq<char>, p: Seq<char>, rest: Seq<char>)
    requires
        single_lt(p),
        !contains(a, p),
    ensures
        find_from(a + p + rest, p, 0) == Some(a.len() as int),
{
    let s = a + p + rest;
    let na = a.len() as int;
    let np = p.len() as int;
    lemma_find_from(a, p, 0);
    assert forall|j: int| 0 <= j < na implies !matches_at(s, j, p) by {
        if matches_at(s, j, p) {
            if j + np <= na {
                assert(a.subrange(j, j + np) =~= s.subrange(j, j + np));
                assert(matches_at(a, j, p));
            } else {
                assert(s.subrange(j, j + np)[na - j] == s[na]);
                assert(s[na] == p[0]);
                assert(p[na - j] != '<');
            }
        }
    }
    assert(s.subrange(na, na + np) =~= p);
    lemma_find_from_skip(s, p, 0, na);
}

/// A closing tag `</...` does not begin inside an opening tag `<x...` that
/// holds no other `<`.
pub proof fn lemma_no_close_in_open(open: Seq<char>, close: Seq<char>, rest: Seq<char>)
    requires
        single_lt(open),
        single_lt(close),
        open[1] != '/',
        close[1] == '/',
    ensures
        forall|j: int| 0 <= j < open.len() ==> !matches_at(open + rest, j, close),
{
    let s = open + rest;
    assert forall|j: int| 0 <= j < open.len() implies !matches_at(s, j, close) by {
        if matches_at(s, j, close) {
            assert(s.subrange(j, j + close.len())[0] == s[j]);
            assert(s.subrange(j, j + close.len())[1] == s[j + 1]);
            assert(s[j] == open[j]);
            if j == 0 {
                assert(s[1] == open[1]);
            }
        }
    }
}

/// In `a + open + t + close + b`, where `a` holds no `open` and `t` no
/// `close`, the first `open` comes right after `a`, and the first `close`
/// from there right after `t`.
pub proof fn lemma_first_block(
    a: Seq<char>,
    open: Seq<char>,
    t: Seq<char>,
    close: Seq<char>,
    b: Seq<char>,
)
    requires
        single_lt(open),
        single_lt(close),
        open[1] != '/',
        close[1] == '/',
        !contains(a, open),
        !contains(t, close),
    ensures
        find_from(a + open + t + close + b, open, 0) == Some(a.len() as int),
        find_from(a + open + t + close + b, close, a.len() as int) == Some(
            (a.len() + open.len() + t.len()) as int,
        ),
{
    let s = a + open + t + close + b;
    assert(s =~= a + open + (t + close + b));
    lemma_first_match(a, open, t + close + b);
    let y = open + (t + close + b);
    assert(s =~= a + y);
    lemma_find_from_shift(a, y, close, 0);
    lemma_no_close_in_open(open, close, t + close + b);
    lemma_find_from_skip(y, close, 0, open.len() as int);
    lemma_find_from_shift(open, t + close + b, close, 0);
    lemma_first_match(t, close, b);
}

/// Does `p` occur in `s` at `i`?
pub fn matches_at_exec(s: &Vec<char>, i: usize, p: &Vec<char>) -> (b: bool)
    ensures
        b == matches_at(s@, i as int, p@),
{
    if p.len() > s.len() || i > s.len() - p.len() {
        return false;
    }
    let mut k: usize = 0;
    while k < p.len()
        invariant
            i + p.len() <= s.len(),
            k <= p.len(),
            forall|m: int| 0 <= m < k ==> s@[i + m] == p@[m],
        decreases p.len() - k,
    {
        if s[i + k] != p[k] {
            assert(s@.subrange(i as int, i + p.len())[k as int] != p@[k as int]);
            return false;
        }
        k = k + 1;
    }
    assert(s@.subrange(i as int, i + p.len()) =~= p@);
    true
}

/// First occurrence of `p` in `s` at or after `from`.
pub fn search(s: &Vec<char>, p: &Vec<char>, from: usize) -> (r: Option<usize>)
    ensures
        r matches Some(i) ==> find_from(s@, p@, from as int) == Some(i as int),
        r matches Some(i) ==> from <= i && i + p.len() <= s.len() && matches_at(s@, i as int, p@),
        r is None ==> find_from(s@, p@, from as int) is None,
{
    proof {
        lemma_find_from(s@, p@, from as int);
    }
    if p.len() > s.len() {
        return None;
    }
    let last = s.len() - p.len();
    let mut i = from;
    while i <= last
        invariant
            from <= i,
            last == s.len() - p.len(),
            find_from(s@, p@, from as int) == find_from(s@, p@, i as int),
        decreases last + 1 - i,
    {
        if matches_at_exec(s, i, p) {
            return Some(i);
        }
        i = i + 1;
    }
    None
}

/// Last occurrence of `p` in `s`.
pub fn rsearch(s: &Vec<char>, p: &Vec<char>) -> (r: Option<usize>)
    ensures
        r matches Some(i) ==> rfind(s@, p@) == Some(i as int),
        r matches Some(i) ==> i + p.len() <= s.len() && matches_at(s@, i as int, p@),
        r is None ==> rfind(s@, p@) is None,
{
    proof {
        lemma_rfind_upto(s@, p@, s@.len() - p@.len());
    }
    if p.len() > s.len() {
        return None;
    }
    let mut i = s.len() - p.len();
    loop
        invariant
            i <= s.len() - p.len(),
            p.len() <= s.len(),
            rfind(s@, p@) == rfind_upto(s@, p@, i as int),
        decreases i,
    {
        if matches_at_exec(s, i, p) {
            return Some(i);
        }
        if i == 0 {
            assert(rfind_upto(s@, p@, -1) is None);
            return None;
        }
        i = i - 1;
    }
}

// ---------------------------------------------------------------------------
// Replacing
// ---------------------------------------------------------------------------

/// `s[from..]` with every non-overlapping occurrence of `p`, scanning left to
/// right, replaced by `r`.
pub open spec fn replace_from(s: Seq<char>, p: Seq<char>, r: Seq<char>, from: int) -> Seq<char>
    decreases s.len() - from,
{
    if from < 0 || from > s.len() || p.len() == 0 {
        s.subrange(from, s.len() as int)
    } else {
        match find_from(s, p, from) {
            None => s.subrange(from, s.len() as int),
            Some(j) => if from <= j && j + p.len() <= s.len() {
                s.subrange(from, j) + r + replace_from(s, p, r, j + p.len())
            } else {
                s.subrange(from, s.len() as int)
            },
        }
    }
}

/// `s` with every non-overlapping occurrence of `p` replaced by `r`.
pub open spec fn replace_all(s: Seq<char>, p: Seq<char>, r: Seq<char>) -> Seq<char> {
    replace_from(s, p, r, 0)
}

/// Replace every occurrence of `p` in `s` by `r`.
pub fn replace_exec(s: &Vec<char>, p: &Vec<char>, r: &Vec<char>) -> (out: Vec<char>)
    requires
        p.len() > 0,
    ensures
        out@ == replace_all(s@, p@, r@),
{
    let mut out: Vec<char> = Vec::new();
    let mut i: usize = 0;
    loop
        invariant
            i <= s.len(),
            p.len() > 0,
            out@ + replace_from(s@, p@, r@, i as int) == replace_all(s@, p@, r@),
        decreases s.len() - i,
    {
        match search(s, p, i) {
            None => {
                proof {
                    assert(replace_from(s@, p@, r@, i as int) == s@.subrange(i as int, s.len() as int));
                }
                append_range(&mut out, s, i, s.len());
                return out;
            },
            Some(j) => {
                proof {
                    lemma_find_from(s@, p@, i as int);
                }
                let ghost before = out@;
                append_range(&mut out, s, i, j);
                append_all(&mut out, r);
                proof {
                    assert(out@ == before + s@.subrange(i as int, j as int) + r@);
                    assert(before + (s@.subrange(i as int, j as int) + r@ + replace_from(s@, p@, r@, j + p.len()))
                        == out@ + replace_from(s@, p@, r@, j + p.len()));
                }
                i = j + p.len();
            },
        }
    }
}

// ---------------------------------------------------------------------------
// Building
// ---------------------------------------------------------------------------

/// Append `s[lo..hi]` to `out`.
pub fn append_range(out: &mut Vec<char>, s: &Vec<char>, lo: usize, hi: usize)
    requires
        lo <= hi <= s.len(),
    ensures
        final(out)@ == old(out)@ + s@.subrange(lo as int, hi as int),
{
    let mut k = lo;
    while k < hi
        invariant
            lo <= k <= hi,
            hi <= s.len(),
            out@ == old(out)@ + s@.subrange(lo as int, k as int),
        decreases hi - k,
    {
        out.push(s[k]);
        assert(s@.subrange(lo as int, k + 1) == s@.subrange(lo as int, k as int).push(s@[k as int]));
        k = k + 1;
    }
}

/// Append all of `s` to `out`.
pub fn append_all(out: &mut Vec<char>, s: &Vec<char>)
    ensures
        final(out)@ == old(out)@ + s@,
{
    append_range(out, s, 0, s.len());
    assert(s@.subrange(0, s.len() as int) =~= s@);
}

/// `s[lo..hi]` as a new vector.
pub fn slice(s: &Vec<char>, lo: usize, hi: usize) -> (out: Vec<char>)
    requires
        lo <= hi <= s.len(),
    ensures
        out@ == s@.subrange(lo as int, hi as int),
{
    let mut out: Vec<char> = Vec::new();
    append_range(&mut out, s, lo, hi);
    assert(Seq::<char>::empty() + s@.subrange(lo as int, hi as int) =~= s@.subrange(lo as int, hi as int));
    out
}

/// The characters of `s`.
pub fn chars_of(s: &str) -> (v: Vec<char>)
    ensures
        v@ == s@,
{
    let mut v: Vec<char> = Vec::new();
    for c in it: s.chars()
        invariant
            it.seq() == s@,
            v@ == it.seq().take(it.index() as int),
    {
        v.push(c);
    }
    v
}

/// Appends one character to a `String`.
/// Calls `String::push`, which std documents as appending the character at the end.
#[verifier::external_body]
fn string_push(s: &mut String, c: char)
    ensures
        final(s)@ == old(s)@.push(c),
{
    s.push(c);
}

/// The `String` made of the characters of `v`.
pub fn to_string(v: &Vec<char>) -> (s: String)
    ensures
        s@ == v@,
{
    let mut s = String::new();
    let mut k: usize = 0;
    while k < v.len()
        invariant
            k <= v.len(),
            s@ == v@.take(k as int),
        decreases v.len() - k,
    {
        string_push(&mut s, v[k]);
        assert(v@.take(k + 1) == v@.take(k as int).push(v@[k as int]));
        k = k + 1;
    }
    assert(v@.take(v.len() as int) =~= v@);
    s
}

/// `parts` joined with `sep` between consecutive parts.
pub open spec fn join(parts: Seq<Seq<char>>, sep: Seq<char>) -> Seq<char>
    decreases parts.len(),
{
    if parts.len() == 0 {
        Seq::empty()
    } else if parts.len() == 1 {
        parts[0]
    } else {
        join(parts.drop_last(), sep) + sep + parts.last()
    }
}

/// Joining two or more parts is the first part, the separator, and the rest
/// joined.
pub proof fn lemma_join_front(parts: Seq<Seq<char>>, sep: Seq<char>)
    requires
        parts.len() >= 2,
    ensures
        join(parts, sep) == parts[0] + sep + join(parts.drop_first(), sep),
    decreases parts.len(),
{
    let rest = parts.drop_first();
    if parts.len() == 2 {
        assert(parts.drop_last().len() == 1);
        assert(join(parts.drop_last(), sep) == parts.drop_last()[0]);
        assert(parts.drop_last()[0] == parts[0]);
        assert(rest.len() == 1);
        assert(join(rest, sep) == rest[0]);
        assert(rest[0] == parts.last());
    } else {
        lemma_join_front(parts.drop_last(), sep);
        assert(join(rest, sep) == join(rest.drop_last(), sep) + sep + rest.last());
        assert(parts.drop_last().drop_first() =~= rest.drop_last());
        assert(parts.drop_last()[0] == parts[0]);
        assert(rest.last() == parts.last());
        assert(parts[0] + sep + join(rest.drop_last(), sep) + sep + parts.last() =~= parts[0] + sep
            + (join(rest.drop_last(), sep) + sep + rest.last()));
    }
}

/// The views of a vector of character vectors.
pub open spec fn views(v: Seq<Vec<char>>) -> Seq<Seq<char>> {
    v.map_values(|x: Vec<char>| x@)
}

/// Join character vectors with a separator.
pub fn join_exec(parts: &Vec<Vec<char>>, sep: &Vec<char>) -> (out: Vec<char>)
    ensures
        out@ == join(views(parts@), sep@),
{
    let mut out: Vec<char> = Vec::new();
    let mut k: usize = 0;
    while k < parts.len()
        invariant
            k <= parts.len(),
            out@ == join(views(parts@).take(k as int), sep@),
        decreases parts.len() - k,
    {
        let ghost prev = views(parts@).take(k as int);
        assert(views(parts@).take(k + 1).drop_last() =~= prev);
        if k > 0 {
            append_all(&mut out, sep);
        }
        append_all(&mut out, &parts[k]);
        proof {
            if k == 0 {
                assert(out@ =~= views(parts@).take(1)[0]);
            }
        }
        k = k + 1;
    }
    assert(views(parts@).take(parts.len() as int) =~= views(parts@));
    out
}

// ---------------------------------------------------------------------------
// Whitespace and trimming
// ---------------------------------------------------------------------------

/// Unicode `White_Space`, the property that `char::is_whitespace` tests.
pub open spec fn is_ws(c: char) -> bool {
    let u = c as u32;
    ||| 0x09 <= u <= 0x0D
    ||| u == 0x20
    ||| u == 0x85
    ||| u == 0xA0
    ||| u == 0x1680
    ||| 0x2000 <= u <= 0x200A
    ||| u == 0x2028
    ||| u == 0x2029
    ||| u == 0x202F
    ||| u == 0x205F
    ||| u == 0x3000
}

pub fn is_ws_exec(c: char) -> (b: bool)
    ensures
        b == is_ws(c),
{
    let u = c as u32;
    (0x09 <= u && u <= 0x0D) || u == 0x20 || u == 0x85 || u == 0xA0 || u == 0x1680 || (0x2000
        <= u && u <= 0x200A) || u == 0x2028 || u == 0x2029 || u == 0x202F || u == 0x205F || u
        == 0x3000
}

/// `s` without its leading whitespace.
pub open spec fn trim_start(s: Seq<char>) -> Seq<char>
    decreases s.len(),
{
    if s.len() > 0 && is_ws(s[0]) {
        trim_start(s.drop_first())
    } else {
        s
    }
}

/// `s` without its trailing whitespace.
pub open spec fn trim_end(s: Seq<char>) -> Seq<char>
    decreases s.len(),
{
    if s.len() > 0 && is_ws(s.last()) {
        trim_end(s.drop_last())
    } else {
        s
    }
}

/// `s` without leading and trailing whitespace.
pub open spec fn trim(s: Seq<char>) -> Seq<char> {
    trim_end(trim_start(s))
}

/// Bounds of `s[lo..hi]` with leading whitespace removed.
pub fn trim_start_bound(s: &Vec<char>, lo: usize, hi: usize) -> (r: usize)
    requires
        lo <= hi <= s.len(),
    ensures
        lo <= r <= hi,
        s@.subrange(r as int, hi as int) == trim_start(s@.subrange(lo as int, hi as int)),
{
    let mut i = lo;
    while i < hi && is_ws_exec(s[i])
        invariant
            lo <= i <= hi,
            hi <= s.len(),
            trim_start(s@.subrange(i as int, hi as int)) == trim_start(
                s@.subrange(lo as int, hi as int),
            ),
        decreases hi - i,
    {
        assert(s@.subrange(i as int, hi as int).drop_first() =~= s@.subrange(i + 1, hi as int));
        i = i + 1;
    }
    i
}

/// Bounds of `s[lo..hi]` with trailing whitespace removed.
pub fn trim_end_bound(s: &Vec<char>, lo: usize, hi: usize) -> (r: usize)
    requires
        lo <= hi <= s.len(),
    ensures
        lo <= r <= hi,
        s@.subrange(lo as int, r as int) == trim_end(s@.subrange(lo as int, hi as int)),
{
    let mut j = hi;
    while j > lo && is_ws_exec(s[j - 1])
        invariant
            lo <= j <= hi,
            hi <= s.len(),
            trim_end(s@.subrange(lo as int, j as int)) == trim_end(
                s@.subrange(lo as int, hi as int),
            ),
        decreases j,
    {
        assert(s@.subrange(lo as int, j as int).drop_last() =~= s@.subrange(lo as int, j - 1));
        j = j - 1;
    }
    j
}

/// `s[lo..hi]` trimmed on both sides.
pub fn trim_slice(s: &Vec<char>, lo: usize, hi: usize) -> (out: Vec<char>)
    requires
        lo <= hi <= s.len(),
    ensures
        out@ == trim(s@.subrange(lo as int, hi as int)),
{
    let a = trim_start_bound(s, lo, hi);
    let b = trim_end_bound(s, a, hi);
    slice(s, a, b)
}

/// Does `p` occur in `s`?
pub fn contains_exec(s: &Vec<char>, p: &Vec<char>) -> (b: bool)
    ensures
        b == contains(s@, p@),
{
    search(s, p, 0).is_some()
}

/// Trimming the start never lengthens a text.
pub proof fn lemma_trim_start_len(s: Seq<char>)
    ensures
        trim_start(s).len() <= s.len(),
    decreases s.len(),
{
    if s.len() > 0 && is_ws(s[0]) {
        lemma_trim_start_len(s.drop_first());
    }
}

/// Trimming the end never lengthens a text.
pub proof fn lemma_trim_end_len(s: Seq<char>)
    ensures
        trim_end(s).len() <= s.len(),
    decreases s.len(),
{
    if s.len() > 0 && is_ws(s.last()) {
        lemma_trim_end_len(s.drop_last());
    }
}

/// Trimming both ends never lengthens a text.
pub proof fn lemma_trim_len(s: Seq<char>)
    ensures
        trim(s).len() <= s.len(),
{
    lemma_trim_start_len(s);
    lemma_trim_end_len(trim_start(s));
}

/// A closing tag `</...` cannot begin inside an opening tag whose characters
/// after the first are neither `<` nor, in second place, `/`.
pub proof fn lemma_close_after_open(s: Seq<char>, st: int, o: Seq<char>, c: Seq<char>)
    requires
        matches_at(s, st, o),
        o.len() >= 2,
        c.len() >= 2,
        c[0] == '<',
        c[1] == '/',
        o[1] != '/',
        forall|k: int| 1 <= k < o.len() ==> o[k] != '<',
    ensures
        find_from(s, c, st) matches Some(e) ==> e >= st + o.len(),
{
    lemma_find_from(s, c, st);
    match find_from(s, c, st) {
        Some(e) => {
            if e < st + o.len() {
                assert(s.subrange(e, e + c.len())[0] == c[0]);
                assert(s.subrange(e, e + c.len())[1] == c[1]);
                assert(s.subrange(st, st + o.len())[e - st] == o[e - st]);
                if e == st {
                    assert(s.subrange(st, st + o.len())[1] == o[1]);
                }
            }
        },
        None => {},
    }
}

} // verus!
