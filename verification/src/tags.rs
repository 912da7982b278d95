//! Locating and rewriting Notion's custom markup tags.
use vstd::prelude::*;

use crate::text::{
    append_all, append_range, chars_of, contains, contains_exec, find, find_from, lemma_find_from,
    lemma_find_from_shift, lemma_first_match, single_lt,
    lemma_rfind_upto, matches_at, matches_at_exec, rfind, rsearch, search, slice, trim, trim_slice,
};

verus! {

/// The tags that are rewritten one occurrence at a time, each by a
/// replacement computed from the whole tag text.
pub enum TagKind {
    MentionPage,
    MentionUser,
    File,
    Checkbox,
    Bookmark,
    Equation,
    MentionDate,
}

pub open spec fn tag_name(kind: TagKind) -> Seq<char> {
    match kind {
        TagKind::MentionPage => "mention-page"@,
        TagKind::MentionUser => "mention-user"@,
        TagKind::File => "file"@,
        TagKind::Checkbox => "checkbox"@,
        TagKind::Bookmark => "bookmark"@,
        TagKind::Equation => "equation"@,
        TagKind::MentionDate => "mention-date"@,
    }
}

pub fn tag_name_exec(kind: &TagKind) -> (v: Vec<char>)
    ensures
        v@ == tag_name(*kind),
{
    match kind {
        TagKind::MentionPage => chars_of("mention-page"),
        TagKind::MentionUser => chars_of("mention-user"),
        TagKind::File => chars_of("file"),
        TagKind::Checkbox => chars_of("checkbox"),
        TagKind::Bookmark => chars_of("bookmark"),
        TagKind::Equation => chars_of("equation"),
        TagKind::MentionDate => chars_of("mention-date"),
    }
}

/// `<name`: how an opening tag starts.
pub open spec fn open_pat(name: Seq<char>) -> Seq<char> {
    seq!['<'] + name
}

/// `</name>`: the closing tag.
pub open spec fn close_pat(name: Seq<char>) -> Seq<char> {
    seq!['<', '/'] + name + seq!['>']
}

pub fn open_pat_exec(name: &Vec<char>) -> (v: Vec<char>)
    ensures
        v@ == open_pat(name@),
{
    let mut v = vec!['<'];
    append_all(&mut v, name);
    v
}

pub fn close_pat_exec(name: &Vec<char>) -> (v: Vec<char>)
    ensures
        v@ == close_pat(name@),
{
    let mut v = vec!['<', '/'];
    append_all(&mut v, name);
    let gt = vec!['>'];
    append_all(&mut v, &gt);
    v
}

/// End (exclusive) of the tag that starts at `start`: a self-closing `.../>`
/// when `/>` comes no later than the first `>`, otherwise the matching
/// closing tag, or the first `>` when there is none.
pub open spec fn find_tag_end(s: Seq<char>, start: int, name: Seq<char>) -> Option<int> {
    let close = find_from(s, seq!['/', '>'], start);
    let gt = find_from(s, seq!['>'], start);
    if close is Some && (gt is None || close->0 <= gt->0) {
        Some(close->0 + 2)
    } else if gt is Some {
        match find_from(s, close_pat(name), gt->0 + 1) {
            Some(cs) => Some(cs + close_pat(name).len()),
            None => Some(gt->0 + 1),
        }
    } else {
        None
    }
}

/// A tag found ends after it starts and within the text.
pub proof fn lemma_find_tag_end(s: Seq<char>, start: int, name: Seq<char>)
    requires
        0 <= start,
    ensures
        find_tag_end(s, start, name) matches Some(e) ==> start < e <= s.len(),
{
    lemma_find_from(s, seq!['/', '>'], start);
    lemma_find_from(s, seq!['>'], start);
    let gt = find_from(s, seq!['>'], start);
    if gt is Some {
        lemma_find_from(s, close_pat(name), gt->0 + 1);
    }
}

pub fn find_tag_end_exec(s: &Vec<char>, start: usize, name: &Vec<char>) -> (r: Option<usize>)
    ensures
        r matches Some(e) ==> find_tag_end(s@, start as int, name@) == Some(e as int),
        r is None ==> find_tag_end(s@, start as int, name@) is None,
{
    let slash_gt = vec!['/', '>'];
    let gt_pat = vec!['>'];
    assert(slash_gt@ =~= seq!['/', '>']);
    assert(gt_pat@ =~= seq!['>']);
    let close = search(s, &slash_gt, start);
    let gt = search(s, &gt_pat, start);
    proof {
        lemma_find_from(s@, seq!['/', '>'], start as int);
        lemma_find_from(s@, seq!['>'], start as int);
    }
    if close.is_some() && (gt.is_none() || close.unwrap() <= gt.unwrap()) {
        return Some(close.unwrap() + 2);
    }
    match gt {
        Some(g) => {
            let cp = close_pat_exec(name);
            match search(s, &cp, g + 1) {
                Some(cs) => {
                    proof {
                        lemma_find_from(s@, cp@, g + 1);
                    }
                    Some(cs + cp.len())
                },
                None => Some(g + 1),
            }
        },
        None => None,
    }
}

/// The value of attribute `attr` in `tag`: the text between `attr="` and the next `"`.
pub open spec fn extract_attr(tag: Seq<char>, attr: Seq<char>) -> Option<Seq<char>> {
    let pat = attr + "=\""@;
    match find(tag, pat) {
        None => None,
        Some(st) => match find_from(tag, "\""@, st + pat.len()) {
            None => None,
            Some(ve) => Some(tag.subrange(st + pat.len(), ve)),
        },
    }
}

pub fn extract_attr_exec(tag: &Vec<char>, attr: &str) -> (r: Option<Vec<char>>)
    ensures
        r matches Some(v) ==> extract_attr(tag@, attr@) == Some(v@),
        r is None ==> extract_attr(tag@, attr@) is None,
{
    let mut pat = chars_of(attr);
    let suffix = chars_of("=\"");
    append_all(&mut pat, &suffix);
    match search(tag, &pat, 0) {
        None => None,
        Some(st) => {
            proof {
                lemma_find_from(tag@, pat@, 0);
            }
            let quote = chars_of("\"");
            match search(tag, &quote, st + pat.len()) {
                None => None,
                Some(ve) => {
                    proof {
                        lemma_find_from(tag@, quote@, st + pat.len());
                    }
                    Some(slice(tag, st + pat.len(), ve))
                },
            }
        },
    }
}

/// An attribute value is never longer than the tag it comes from.
pub proof fn lemma_extract_attr_len(tag: Seq<char>, attr: Seq<char>)
    ensures
        extract_attr(tag, attr) matches Some(v) ==> v.len() <= tag.len(),
{
    let pat = attr + "=\""@;
    lemma_find_from(tag, pat, 0);
    match find(tag, pat) {
        None => {},
        Some(st) => {
            lemma_find_from(tag, "\""@, st + pat.len());
        },
    }
}

/// `attr`'s value, or the empty text when the tag lacks it.
pub open spec fn attr_or_empty(tag: Seq<char>, attr: Seq<char>) -> Seq<char> {
    match extract_attr(tag, attr) {
        Some(v) => v,
        None => Seq::empty(),
    }
}

pub fn attr_or_empty_exec(tag: &Vec<char>, attr: &str) -> (v: Vec<char>)
    ensures
        v@ == attr_or_empty(tag@, attr@),
{
    match extract_attr_exec(tag, attr) {
        Some(v) => v,
        None => Vec::new(),
    }
}

/// Start of the text inside a tag, just past its first `>` (1 when it has none).
pub open spec fn inner_start(tag: Seq<char>) -> int {
    match find(tag, seq!['>']) {
        Some(g) => g + 1,
        None => 1,
    }
}

/// End of the text inside a tag: the last closing tag, or the end of the tag.
pub open spec fn inner_end(tag: Seq<char>, name: Seq<char>) -> int {
    match rfind(tag, close_pat(name)) {
        Some(c) => c,
        None => tag.len() as int,
    }
}

/// The trimmed text inside a paired tag; `None` where the first `>` comes after
/// the last closing tag.
pub open spec fn inner_text(tag: Seq<char>, name: Seq<char>) -> Option<Seq<char>> {
    let a = inner_start(tag);
    let b = inner_end(tag, name);
    if a <= b && b <= tag.len() {
        Some(trim(tag.subrange(a, b)))
    } else {
        None
    }
}

pub fn inner_text_exec(tag: &Vec<char>, name: &Vec<char>) -> (r: Option<Vec<char>>)
    requires
        tag.len() > 0,
    ensures
        r matches Some(v) ==> inner_text(tag@, name@) == Some(v@),
        r is None ==> inner_text(tag@, name@) is None,
{
    let gt = vec!['>'];
    assert(gt@ =~= seq!['>']);
    let a = match search(tag, &gt, 0) {
        Some(g) => {
            proof {
                lemma_find_from(tag@, gt@, 0);
            }
            g + 1
        },
        None => 1,
    };
    let cp = close_pat_exec(name);
    let b = match rsearch(tag, &cp) {
        Some(c) => {
            proof {
                lemma_rfind_upto(tag@, cp@, tag@.len() - cp@.len());
            }
            c
        },
        None => tag.len(),
    };
    if a <= b && b <= tag.len() {
        Some(trim_slice(tag, a, b))
    } else {
        None
    }
}

/// What a tag of the given kind is rewritten to; `None` where the rewrite
/// cannot slice the tag's inner text.
#[verifier::opaque]
pub open spec fn tag_replacement(kind: TagKind, tag: Seq<char>) -> Option<Seq<char>> {
    match kind {
        TagKind::MentionPage => Some("[Notion page]("@ + attr_or_empty(tag, "url"@) + ")"@),
        TagKind::MentionUser => Some("@user"@),
        TagKind::File => Some("[attachment]"@),
        TagKind::Checkbox => if attr_or_empty(tag, "checked"@) == "true"@ {
            Some("[x] "@)
        } else {
            Some("[ ] "@)
        },
        TagKind::Bookmark => {
            let url = attr_or_empty(tag, "url"@);
            if contains(tag, seq!['/', '>']) && !contains(tag, close_pat("bookmark"@)) {
                Some(url)
            } else {
                match inner_text(tag, "bookmark"@) {
                    None => None,
                    Some(text) => if text.len() == 0 {
                        Some(url)
                    } else {
                        Some("["@ + text + "]("@ + url + ")"@)
                    },
                }
            }
        },
        TagKind::Equation => match inner_text(tag, "equation"@) {
            None => None,
            Some(expr) => Some("$"@ + expr + "$"@),
        },
        TagKind::MentionDate => {
            let start = attr_or_empty(tag, "start"@);
            match extract_attr(tag, "end"@) {
                Some(end) => Some(start + " → "@ + end),
                None => Some(start),
            }
        },
    }
}

/// Concatenate three pieces.
fn concat3(a: &Vec<char>, b: &Vec<char>, c: &Vec<char>) -> (v: Vec<char>)
    ensures
        v@ == a@ + b@ + c@,
{
    let mut v: Vec<char> = Vec::new();
    append_all(&mut v, a);
    append_all(&mut v, b);
    append_all(&mut v, c);
    assert(Seq::<char>::empty() + a@ + b@ + c@ =~= a@ + b@ + c@);
    v
}

pub fn tag_replacement_exec(kind: &TagKind, tag: &Vec<char>) -> (r: Option<Vec<char>>)
    requires
        tag.len() > 0,
    ensures
        r matches Some(v) ==> tag_replacement(*kind, tag@) == Some(v@),
        r is None ==> tag_replacement(*kind, tag@) is None,
{
    reveal(tag_replacement);
    match kind {
        TagKind::MentionPage => {
            let url = attr_or_empty_exec(tag, "url");
            Some(concat3(&chars_of("[Notion page]("), &url, &chars_of(")")))
        },
        TagKind::MentionUser => Some(chars_of("@user")),
        TagKind::File => Some(chars_of("[attachment]")),
        TagKind::Checkbox => {
            let checked = attr_or_empty_exec(tag, "checked");
            let t = chars_of("true");
            if checked.len() == t.len() && matches_at_exec(&checked, 0, &t) {
                proof {
                    assert(checked@.subrange(0, t@.len() as int) =~= checked@);
                }
                Some(chars_of("[x] "))
            } else {
                proof {
                    if checked@ == t@ {
                        assert(checked@.subrange(0, t@.len() as int) =~= checked@);
                    }
                }
                Some(chars_of("[ ] "))
            }
        },
        TagKind::Bookmark => {
            let url = attr_or_empty_exec(tag, "url");
            let name = chars_of("bookmark");
            let self_closing = contains_exec(tag, &vec!['/', '>']);
            let has_close = contains_exec(tag, &close_pat_exec(&name));
            if self_closing && !has_close {
                return Some(url);
            }
            match inner_text_exec(tag, &name) {
                None => None,
                Some(text) => if text.len() == 0 {
                    Some(url)
                } else {
                    let left = concat3(&chars_of("["), &text, &chars_of("]("));
                    Some(concat3(&left, &url, &chars_of(")")))
                },
            }
        },
        TagKind::Equation => {
            let name = chars_of("equation");
            match inner_text_exec(tag, &name) {
                None => None,
                Some(expr) => Some(concat3(&chars_of("$"), &expr, &chars_of("$"))),
            }
        },
        TagKind::MentionDate => {
            let start = attr_or_empty_exec(tag, "start");
            match extract_attr_exec(tag, "end") {
                Some(end) => Some(concat3(&start, &chars_of(" → "), &end)),
                None => Some(start),
            }
        },
    }
}

/// Rewrite, scanning from `from`, every tag of the given kind; after each
/// rewrite the scan resumes just past the replacement. `None` where a
/// replacement cannot be computed.
pub open spec fn replace_tag_from(kind: TagKind, s: Seq<char>, from: int) -> Option<Seq<char>>
    decreases s.len() - from,
{
    match find_from(s, open_pat(tag_name(kind)), from) {
        None => Some(s),
        Some(start) => match find_tag_end(s, start, tag_name(kind)) {
            None => Some(s),
            Some(end) => if 0 <= from <= start && start < end <= s.len() {
                match tag_replacement(kind, s.subrange(start, end)) {
                    None => None,
                    Some(repl) => replace_tag_from(
                        kind,
                        s.subrange(0, start) + repl + s.subrange(end, s.len() as int),
                        start + repl.len(),
                    ),
                }
            } else {
                Some(s)
            },
        },
    }
}

/// Rewrite every tag of the given kind in `s`.
pub open spec fn replace_tag(kind: TagKind, s: Seq<char>) -> Option<Seq<char>> {
    replace_tag_from(kind, s, 0)
}

proof fn lemma_tag_open_single_lt(kind: TagKind)
    ensures
        single_lt(open_pat(tag_name(kind))),
{
    reveal_strlit("mention-page");
    reveal_strlit("mention-user");
    reveal_strlit("file");
    reveal_strlit("checkbox");
    reveal_strlit("bookmark");
    reveal_strlit("equation");
    reveal_strlit("mention-date");
    let name = tag_name(kind);
    let open = open_pat(name);
    assert forall|k: int| 1 <= k < open.len() implies #[trigger] open[k] != '<' by {
        assert(open[k] == name[k - 1]);
    }
}

proof fn lemma_find_tag_end_shift(x: Seq<char>, y: Seq<char>, i: int, name: Seq<char>)
    requires
        0 <= i,
    ensures
        find_tag_end(x + y, x.len() + i, name) == match find_tag_end(y, i, name) {
            Some(e) => Some(e + x.len()),
            None => None,
        },
{
    lemma_find_from_shift(x, y, seq!['/', '>'], i);
    lemma_find_from_shift(x, y, seq!['>'], i);
    lemma_find_from(y, seq!['>'], i);
    if let Some(g) = find_from(y, seq!['>'], i) {
        lemma_find_from_shift(x, y, close_pat(name), g + 1);
    }
}

#[verifier::spinoff_prover]
#[verifier::rlimit(40)]
proof fn lemma_replace_tag_shift(kind: TagKind, x: Seq<char>, y: Seq<char>, i: int)
    requires
        0 <= i <= y.len(),
    ensures
        replace_tag_from(kind, x + y, x.len() + i) == match replace_tag_from(kind, y, i) {
            Some(r) => Some(x + r),
            None => None,
        },
    decreases y.len() - i,
{
    let s = x + y;
    let n = x.len() as int;
    let name = tag_name(kind);
    let open = open_pat(name);
    lemma_find_from_shift(x, y, open, i);
    lemma_find_from(y, open, i);
    match find_from(y, open, i) {
        None => {},
        Some(start) => {
            lemma_find_tag_end_shift(x, y, start, name);
            lemma_find_tag_end(y, start, name);
            match find_tag_end(y, start, name) {
                None => {},
                Some(end) => {
                    assert(s.subrange(n + start, n + end) =~= y.subrange(start, end));
                    match tag_replacement(kind, y.subrange(start, end)) {
                        None => {},
                        Some(repl) => {
                            let y2 = y.subrange(0, start) + repl + y.subrange(end, y.len() as int);
                            assert(s.subrange(0, n + start) + repl + s.subrange(n + end, s.len() as int)
                                =~= x + y2);
                            lemma_replace_tag_shift(kind, x, y2, start + repl.len());
                        },
                    }
                },
            }
        },
    }
}

/// The first tag of a kind is rewritten and the rewriting goes on after it:
/// in `a + t + b`, where `a` holds no opening `<name` of the kind and `t` is
/// one whole tag of it (it starts with `<name` and, read on into `b`, ends
/// where `t` does), `a` is kept, `t` becomes its replacement, and `b` is
/// rewritten in turn.
pub proof fn lemma_replace_tag_first(kind: TagKind, a: Seq<char>, t: Seq<char>, b: Seq<char>)
    requires
        !contains(a, open_pat(tag_name(kind))),
        matches_at(t, 0, open_pat(tag_name(kind))),
        find_tag_end(t + b, 0, tag_name(kind)) == Some(t.len() as int),
    ensures
        replace_tag(kind, a + t + b) == match tag_replacement(kind, t) {
            None => None,
            Some(r) => match replace_tag(kind, b) {
                Some(rb) => Some(a + r + rb),
                None => None,
            },
        },
{
    let name = tag_name(kind);
    let open = open_pat(name);
    let s = a + t + b;
    let na = a.len() as int;
    lemma_tag_open_single_lt(kind);
    let rest = t.subrange(open.len() as int, t.len() as int) + b;
    assert(t.subrange(0, open.len() as int) =~= open);
    assert(s =~= a + open + rest);
    lemma_first_match(a, open, rest);
    assert(s =~= a + (t + b));
    lemma_find_tag_end_shift(a, t + b, 0, name);
    assert(s.subrange(na, na + t.len()) =~= t);
    match tag_replacement(kind, t) {
        None => {},
        Some(r) => {
            assert(s.subrange(0, na) + r + s.subrange(na + t.len(), s.len() as int) =~= (a + r) + b);
            lemma_replace_tag_shift(kind, a + r, b, 0);
        },
    }
}

pub fn replace_tag_exec(kind: &TagKind, input: Vec<char>) -> (r: Option<Vec<char>>)
    ensures
        r matches Some(v) ==> replace_tag(*kind, input@) == Some(v@),
        r is None ==> replace_tag(*kind, input@) is None,
{
    let name = tag_name_exec(kind);
    let open = open_pat_exec(&name);
    let mut s = input;
    let mut from: usize = 0;
    loop
        invariant
            from <= s.len(),
            name@ == tag_name(*kind),
            open@ == open_pat(name@),
            replace_tag(*kind, input@) == replace_tag_from(*kind, s@, from as int),
        decreases s.len() - from,
    {
        let start = match search(&s, &open, from) {
            None => return Some(s),
            Some(st) => st,
        };
        proof {
            lemma_find_from(s@, open@, from as int);
        }
        let end = match find_tag_end_exec(&s, start, &name) {
            None => return Some(s),
            Some(e) => e,
        };
        proof {
            lemma_find_tag_end(s@, start as int, name@);
        }
        let tag = slice(&s, start, end);
        let repl = match tag_replacement_exec(kind, &tag) {
            None => return None,
            Some(r) => r,
        };
        let mut next: Vec<char> = slice(&s, 0, start);
        append_all(&mut next, &repl);
        append_range(&mut next, &s, end, s.len());
        let total = next.len();
        assert(total == start + repl@.len() + (s@.len() - end));
        from = start + repl.len();
        s = next;
    }
}

/// Position of the first opening `<name` whose content, up to the next
/// `</name>`, holds no further `<name`; the search moves past each opening
/// tag that does not qualify.
pub open spec fn find_innermost_from(s: Seq<char>, name: Seq<char>, from: int) -> Option<int>
    decreases s.len() - from,
{
    let open = open_pat(name);
    match find_from(s, open, from) {
        None => None,
        Some(abs) => if 0 <= from <= abs && open.len() > 0 && abs + open.len() <= s.len() {
            let next = abs + open.len();
            match find_from(s, seq!['>'], next) {
                None => find_innermost_from(s, name, next),
                Some(g) => match find_from(s, close_pat(name), g + 1) {
                    Some(cp) => if g + 1 <= cp <= s.len() && !contains(s.subrange(g + 1, cp), open) {
                        Some(abs)
                    } else {
                        find_innermost_from(s, name, next)
                    },
                    None => find_innermost_from(s, name, next),
                },
            }
        } else {
            None
        },
    }
}

pub open spec fn find_innermost(s: Seq<char>, name: Seq<char>) -> Option<int> {
    find_innermost_from(s, name, 0)
}

/// An innermost tag found is an opening of the tag, followed by a `>` and
/// then by a closing tag.
pub proof fn lemma_find_innermost_from(s: Seq<char>, name: Seq<char>, from: int)
    requires
        0 <= from,
    ensures
        find_innermost_from(s, name, from) matches Some(abs) ==> {
            &&& from <= abs
            &&& matches_at(s, abs, open_pat(name))
            &&& find_from(s, seq!['>'], abs + open_pat(name).len()) is Some
            &&& find_from(s, close_pat(name), find_from(s, seq!['>'], abs + open_pat(name).len())->0 + 1) is Some
        },
    decreases s.len() - from,
{
    let open = open_pat(name);
    lemma_find_from(s, open, from);
    match find_from(s, open, from) {
        None => {},
        Some(abs) => {
            let next = abs + open.len();
            match find_from(s, seq!['>'], next) {
                None => lemma_find_innermost_from(s, name, next),
                Some(g) => match find_from(s, close_pat(name), g + 1) {
                    Some(cp) => if g + 1 <= cp <= s.len() && !contains(s.subrange(g + 1, cp), open) {
                    } else {
                        lemma_find_innermost_from(s, name, next)
                    },
                    None => lemma_find_innermost_from(s, name, next),
                },
            }
        },
    }
}

/// An opening `<name` at `p` whose content (after the next `>`, up to the
/// next `</name>`) holds no further `<name`.
pub open spec fn innermost_at(s: Seq<char>, name: Seq<char>, p: int) -> bool {
    let open = open_pat(name);
    &&& matches_at(s, p, open)
    &&& match find_from(s, seq!['>'], p + open.len()) {
        Some(g) => match find_from(s, close_pat(name), g + 1) {
            Some(e) => !contains(s.subrange(g + 1, e), open),
            None => false,
        },
        None => false,
    }
}

proof fn lemma_find_innermost_least(s: Seq<char>, name: Seq<char>, from: int)
    requires
        0 <= from,
        forall|k: int| 0 <= k < name.len() ==> name[k] != '<',
    ensures
        find_innermost_from(s, name, from) matches Some(p) ==> {
            &&& from <= p
            &&& innermost_at(s, name, p)
            &&& forall|q: int| from <= q < p ==> !innermost_at(s, name, q)
        },
        find_innermost_from(s, name, from) is None ==> forall|q: int|
            from <= q ==> !innermost_at(s, name, q),
    decreases s.len() - from,
{
    let open = open_pat(name);
    lemma_find_from(s, open, from);
    match find_from(s, open, from) {
        None => {},
        Some(abs) => {
            let next = abs + open.len();
            assert forall|q: int| abs < q < next implies !matches_at(s, q, open) by {
                if matches_at(s, q, open) {
                    assert(s.subrange(q, q + open.len())[0] == s[q]);
                    assert(s.subrange(abs, abs + open.len())[q - abs] == s[q]);
                    assert(open[q - abs] == name[q - abs - 1]);
                }
            }
            lemma_find_from(s, seq!['>'], next);
            match find_from(s, seq!['>'], next) {
                None => lemma_find_innermost_least(s, name, next),
                Some(g) => {
                    lemma_find_from(s, close_pat(name), g + 1);
                    match find_from(s, close_pat(name), g + 1) {
                        Some(cp) => if !contains(s.subrange(g + 1, cp), open) {
                        } else {
                            lemma_find_innermost_least(s, name, next)
                        },
                        None => lemma_find_innermost_least(s, name, next),
                    }
                },
            }
        },
    }
}

/// For a tag name without `<`, the innermost tag found is the first opening
/// `<name` whose content, up to the next `</name>`, holds no further `<name`;
/// none is found exactly when no opening qualifies.
pub proof fn lemma_find_innermost_is_first(s: Seq<char>, name: Seq<char>)
    requires
        forall|k: int| 0 <= k < name.len() ==> name[k] != '<',
    ensures
        find_innermost(s, name) matches Some(p) ==> innermost_at(s, name, p) && forall|q: int|
            0 <= q < p ==> !innermost_at(s, name, q),
        find_innermost(s, name) is None ==> forall|q: int| 0 <= q ==> !innermost_at(s, name, q),
{
    lemma_find_innermost_least(s, name, 0);
}

pub fn find_innermost_exec(s: &Vec<char>, name: &Vec<char>) -> (r: Option<usize>)
    ensures
        r matches Some(a) ==> find_innermost(s@, name@) == Some(a as int),
        r is None ==> find_innermost(s@, name@) is None,
{
    let open = open_pat_exec(name);
    let close = close_pat_exec(name);
    let gt = vec!['>'];
    assert(gt@ =~= seq!['>']);
    let mut from: usize = 0;
    loop
        invariant
            from <= s.len(),
            open@ == open_pat(name@),
            close@ == close_pat(name@),
            gt@ == seq!['>'],
            find_innermost(s@, name@) == find_innermost_from(s@, name@, from as int),
        decreases s.len() - from,
    {
        let abs = match search(s, &open, from) {
            None => return None,
            Some(a) => a,
        };
        proof {
            lemma_find_from(s@, open@, from as int);
        }
        let next = abs + open.len();
        match search(s, &gt, next) {
            None => {
                from = next;
            },
            Some(g) => {
                proof {
                    lemma_find_from(s@, gt@, next as int);
                }
                match search(s, &close, g + 1) {
                    Some(cp) => {
                        proof {
                            lemma_find_from(s@, close@, g + 1);
                        }
                        let between = slice(s, g + 1, cp);
                        if !contains_exec(&between, &open) {
                            return Some(abs);
                        }
                        from = next;
                    },
                    None => {
                        from = next;
                    },
                }
            },
        }
    }
}

} // verus!
