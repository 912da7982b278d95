//! Notion API responses and the reading of page properties.
use vstd::prelude::*;
use vstd::seq_lib::lemma_multiset_commutative;
use vstd::utf8::char_u32_cast;

use crate::text::{append_all, chars_of, join, join_exec, matches_at, matches_at_exec, to_string, views};

verus! {

broadcast use vstd::seq_lib::group_to_multiset_ensures;

/// A JSON value as the API returns it. A number holds the decimal text it is
/// printed as.
#[derive(Debug)]
pub enum JsonValue {
    Null,
    Bool(bool),
    Number(String),
    Str(String),
    Array(Vec<JsonValue>),
    Object(Vec<(String, JsonValue)>),
}

/// The value of the first entry named `key`, from index `i` on.
pub open spec fn lookup_from(entries: Seq<(String, JsonValue)>, key: Seq<char>, i: int) -> Option<JsonValue>
    decreases entries.len() - i,
{
    if i < 0 || i >= entries.len() {
        None
    } else if entries[i].0@ == key {
        Some(entries[i].1)
    } else {
        lookup_from(entries, key, i + 1)
    }
}

/// The member `key` of an object; `None` for a missing member or a non-object.
pub open spec fn json_get(v: JsonValue, key: Seq<char>) -> Option<JsonValue> {
    match v {
        JsonValue::Object(entries) => lookup_from(entries@, key, 0),
        _ => None,
    }
}

/// The member `key` of an object when it is a string.
pub open spec fn get_str(v: JsonValue, key: Seq<char>) -> Option<Seq<char>> {
    match json_get(v, key) {
        Some(JsonValue::Str(s)) => Some(s@),
        _ => None,
    }
}

/// `o`'s text, or the empty text.
pub open spec fn or_empty(o: Option<Seq<char>>) -> Seq<char> {
    match o {
        Some(s) => s,
        None => Seq::empty(),
    }
}

/// Are the two texts equal?
pub fn str_eq(a: &str, b: &str) -> (r: bool)
    ensures
        r == (a@ == b@),
{
    let x = chars_of(a);
    let y = chars_of(b);
    if x.len() != y.len() {
        return false;
    }
    let m = matches_at_exec(&x, 0, &y);
    assert(x@.subrange(0, y@.len() as int) =~= x@);
    m
}

pub fn json_get_exec<'a>(v: &'a JsonValue, key: &str) -> (r: Option<&'a JsonValue>)
    ensures
        r matches Some(x) ==> json_get(*v, key@) == Some(*x),
        r is None ==> json_get(*v, key@) is None,
{
    match v {
        JsonValue::Object(entries) => {
            assert(json_get(*v, key@) == lookup_from(entries@, key@, 0));
            let mut i: usize = 0;
            while i < entries.len()
                invariant
                    i <= entries.len(),
                    json_get(*v, key@) == lookup_from(entries@, key@, 0),
                    lookup_from(entries@, key@, 0) == lookup_from(entries@, key@, i as int),
                decreases entries.len() - i,
            {
                if str_eq(entries[i].0.as_str(), key) {
                    assert(lookup_from(entries@, key@, i as int) == Some(entries@[i as int].1));
                    let found = &entries[i].1;
                    assert(json_get(*v, key@) == Some(*found));
                    return Some(found);
                }
                i = i + 1;
            }
            None
        },
        _ => None,
    }
}

pub fn get_str_exec<'a>(v: &'a JsonValue, key: &str) -> (r: Option<&'a String>)
    ensures
        r matches Some(x) ==> get_str(*v, key@) == Some(x@),
        r is None ==> get_str(*v, key@) is None,
{
    match json_get_exec(v, key) {
        Some(JsonValue::Str(s)) => Some(s),
        _ => None,
    }
}

fn string_or_empty(o: Option<&String>) -> (v: Vec<char>)
    ensures
        v@ == or_empty(match o {
            Some(s) => Some(s@),
            None => None,
        }),
{
    match o {
        Some(s) => chars_of(s.as_str()),
        None => Vec::new(),
    }
}

// ---------------------------------------------------------------------------
// Property values
// ---------------------------------------------------------------------------

/// The `plain_text` strings of rich-text items, concatenated.
pub open spec fn concat_plain_text(items: Seq<JsonValue>) -> Seq<char>
    decreases items.len(),
{
    if items.len() == 0 {
        Seq::empty()
    } else {
        concat_plain_text(items.drop_last()) + or_empty(get_str(items.last(), "plain_text"@))
    }
}

/// The text of a rich-text array property: its `field` member's plain text.
pub open spec fn rich_text_of(value: JsonValue, field: Seq<char>) -> Seq<char> {
    match json_get(value, field) {
        Some(JsonValue::Array(items)) => concat_plain_text(items@),
        _ => Seq::empty(),
    }
}

/// The `name` strings of the items that have one.
pub open spec fn item_names(items: Seq<JsonValue>) -> Seq<Seq<char>>
    decreases items.len(),
{
    if items.len() == 0 {
        Seq::empty()
    } else {
        let rest = item_names(items.drop_last());
        match get_str(items.last(), "name"@) {
            Some(n) => rest.push(n),
            None => rest,
        }
    }
}

/// The text of a property given its `type`, before tabs and newlines are removed.
pub open spec fn raw_property_text(value: JsonValue, prop_type: Seq<char>) -> Seq<char> {
    if prop_type == "title"@ {
        rich_text_of(value, "title"@)
    } else if prop_type == "rich_text"@ {
        rich_text_of(value, "rich_text"@)
    } else if prop_type == "number"@ {
        match json_get(value, "number"@) {
            Some(JsonValue::Number(text)) => text@,
            _ => Seq::empty(),
        }
    } else if prop_type == "select"@ || prop_type == "status"@ {
        match json_get(value, prop_type) {
            Some(inner) => or_empty(get_str(inner, "name"@)),
            None => Seq::empty(),
        }
    } else if prop_type == "multi_select"@ {
        match json_get(value, "multi_select"@) {
            Some(JsonValue::Array(items)) => join(item_names(items@), ", "@),
            _ => Seq::empty(),
        }
    } else if prop_type == "date"@ {
        let (start, end) = match json_get(value, "date"@) {
            Some(d) => (or_empty(get_str(d, "start"@)), get_str(d, "end"@)),
            None => (Seq::empty(), None),
        };
        match end {
            Some(e) => start + " → "@ + e,
            None => start,
        }
    } else if prop_type == "checkbox"@ {
        match json_get(value, "checkbox"@) {
            Some(JsonValue::Bool(b)) => if b {
                "true"@
            } else {
                "false"@
            },
            _ => Seq::empty(),
        }
    } else if prop_type == "url"@ || prop_type == "email"@ || prop_type == "phone_number"@ {
        or_empty(get_str(value, prop_type))
    } else {
        Seq::empty()
    }
}

/// The names of the options that have a string `name`, in order.
pub open spec fn named_options(items: Seq<JsonValue>) -> Seq<Seq<char>> {
    items.filter(|it: JsonValue| get_str(it, "name"@) is Some).map_values(
        |it: JsonValue| get_str(it, "name"@)->0,
    )
}

proof fn lemma_item_names_filter(items: Seq<JsonValue>)
    ensures
        item_names(items) == named_options(items),
    decreases items.len(),
{
    reveal(Seq::filter);
    let pred = |it: JsonValue| get_str(it, "name"@) is Some;
    if items.len() > 0 {
        lemma_item_names_filter(items.drop_last());
        let f = items.drop_last().filter(pred);
        assert(items.filter(pred) == if pred(items.last()) {
            f.push(items.last())
        } else {
            f
        });
        let g = |it: JsonValue| get_str(it, "name"@)->0;
        if pred(items.last()) {
            assert(f.push(items.last()).map_values(g) =~= f.map_values(g).push(g(items.last())));
        }
    } else {
        assert(items.filter(pred) =~= Seq::<JsonValue>::empty());
        assert(named_options(items) =~= Seq::<Seq<char>>::empty());
    }
}

/// A `multi_select` property reads as the names of all its options that have
/// one, in order, joined by `, `.
pub proof fn lemma_multi_select_text(entries: Seq<(String, JsonValue)>, key: Seq<char>, value: JsonValue, items: Vec<JsonValue>)
    requires
        json_get(value, "multi_select"@) == Some(JsonValue::Array(items)),
    ensures
        raw_property_text(value, "multi_select"@) == join(named_options(items@), ", "@),
        lookup_from(entries, key, 0) == Some(value) && get_str(value, "type"@) == Some(
            "multi_select"@,
        ) ==> property_text_of(entries, key) == sanitize_value(
            join(named_options(items@), ", "@),
        ),
{
    reveal_strlit("title");
    reveal_strlit("rich_text");
    reveal_strlit("number");
    reveal_strlit("select");
    reveal_strlit("status");
    reveal_strlit("multi_select");
    lemma_item_names_filter(items@);
    assert("multi_select"@.len() == 12);
    assert("multi_select"@ != "title"@);
    assert("multi_select"@ != "rich_text"@);
    assert("multi_select"@ != "number"@);
    assert("multi_select"@ != "select"@);
    assert("multi_select"@ != "status"@);
    assert(raw_property_text(value, "multi_select"@) == join(item_names(items@), ", "@));
}

/// Tabs, newlines and carriage returns become spaces, so a value fits in a TSV cell.
pub open spec fn sanitize_value(s: Seq<char>) -> Seq<char> {
    s.map_values(|c: char| if c == '\t' || c == '\n' || c == '\r' { ' ' } else { c })
}

/// The text shown for property `key`: empty when it is missing or has no
/// string `type`.
pub open spec fn property_text_of(entries: Seq<(String, JsonValue)>, key: Seq<char>) -> Seq<char> {
    match lookup_from(entries, key, 0) {
        None => Seq::empty(),
        Some(value) => match get_str(value, "type"@) {
            None => Seq::empty(),
            Some(t) => sanitize_value(raw_property_text(value, t)),
        },
    }
}

/// Is this property of type `title`?
pub open spec fn is_title(value: JsonValue) -> bool {
    get_str(value, "type"@) == Some("title"@)
}

/// Index of the first title property, from `i` on.
pub open spec fn first_title_from(entries: Seq<(String, JsonValue)>, i: int) -> Option<int>
    decreases entries.len() - i,
{
    if i < 0 || i >= entries.len() {
        None
    } else if is_title(entries[i].1) {
        Some(i)
    } else {
        first_title_from(entries, i + 1)
    }
}

/// Index of the last title property among the first `n` entries.
pub open spec fn last_title_before(entries: Seq<(String, JsonValue)>, n: int) -> Option<int>
    decreases n,
{
    if n <= 0 || n > entries.len() {
        None
    } else if is_title(entries[n - 1].1) {
        Some(n - 1)
    } else {
        last_title_before(entries, n - 1)
    }
}

/// The names of the first `n` properties that are not titles, in order.
pub open spec fn non_title_names(entries: Seq<(String, JsonValue)>, n: int) -> Seq<Seq<char>>
    decreases n,
{
    if n <= 0 || n > entries.len() {
        Seq::empty()
    } else {
        let rest = non_title_names(entries, n - 1);
        if is_title(entries[n - 1].1) {
            rest
        } else {
            rest.push(entries[n - 1].0@)
        }
    }
}

/// Lexicographic order of texts by code point, which is the byte order of
/// their UTF-8 encodings (the order of `str`).
pub open spec fn text_le(a: Seq<char>, b: Seq<char>) -> bool
    decreases a.len(),
{
    if a.len() == 0 {
        true
    } else if b.len() == 0 {
        false
    } else if a[0] != b[0] {
        (a[0] as u32) < (b[0] as u32)
    } else {
        text_le(a.drop_first(), b.drop_first())
    }
}

/// Any two texts are ordered one way or the other.
pub proof fn lemma_text_le_total(a: Seq<char>, b: Seq<char>)
    ensures
        text_le(a, b) || text_le(b, a),
    decreases a.len(),
{
    if a.len() > 0 && b.len() > 0 {
        if a[0] == b[0] {
            lemma_text_le_total(a.drop_first(), b.drop_first());
        } else {
            char_u32_cast(a[0], a[0] as u32);
            char_u32_cast(b[0], b[0] as u32);
        }
    }
}

/// The order of texts is transitive.
pub proof fn lemma_text_le_transitive(a: Seq<char>, b: Seq<char>, c: Seq<char>)
    requires
        text_le(a, b),
        text_le(b, c),
    ensures
        text_le(a, c),
    decreases a.len(),
{
    if a.len() > 0 && b.len() > 0 && c.len() > 0 && a[0] == b[0] && b[0] == c[0] {
        lemma_text_le_transitive(a.drop_first(), b.drop_first(), c.drop_first());
    }
}

pub fn text_le_exec(a: &Vec<char>, b: &Vec<char>) -> (r: bool)
    ensures
        r == text_le(a@, b@),
{
    let mut k: usize = 0;
    assert(a@.subrange(0, a.len() as int) =~= a@);
    assert(b@.subrange(0, b.len() as int) =~= b@);
    while k < a.len() && k < b.len() && a[k] == b[k]
        invariant
            k <= a.len(),
            k <= b.len(),
            text_le(a@, b@) == text_le(a@.subrange(k as int, a.len() as int), b@.subrange(k as int, b.len() as int)),
        decreases a.len() - k,
    {
        assert(a@.subrange(k as int, a.len() as int).drop_first() =~= a@.subrange(k + 1, a.len() as int));
        assert(b@.subrange(k as int, b.len() as int).drop_first() =~= b@.subrange(k + 1, b.len() as int));
        k = k + 1;
    }
    if k == a.len() {
        true
    } else if k == b.len() {
        false
    } else {
        (a[k] as u32) < (b[k] as u32)
    }
}

/// No two entries share a name.
pub open spec fn keys_distinct(entries: Seq<(String, JsonValue)>) -> bool {
    forall|i: int, j: int|
        0 <= i < j < entries.len() ==> #[trigger] entries[i].0@ != #[trigger] entries[j].0@
}

/// The API's map of a page's properties: each name once, in the order the
/// map was read. The title property is found by its `"type": "title"`, not by
/// its name.
#[derive(Debug)]
pub struct PageProperties {
    entries: Vec<(String, JsonValue)>,
}

impl View for PageProperties {
    type V = Seq<(String, JsonValue)>;

    closed spec fn view(&self) -> Seq<(String, JsonValue)> {
        self.entries@
    }
}

impl PageProperties {
    #[verifier::type_invariant]
    spec fn names_distinct(self) -> bool {
        keys_distinct(self.entries@)
    }

    /// The properties with these entries; `None` where a name occurs twice.
    pub fn from_entries(entries: Vec<(String, JsonValue)>) -> (r: Option<PageProperties>)
        ensures
            r is Some <==> keys_distinct(entries@),
            r matches Some(p) ==> p@ == entries@,
    {
        let mut i: usize = 0;
        while i < entries.len()
            invariant
                i <= entries.len(),
                forall|a: int, b: int|
                    0 <= a < b < i ==> #[trigger] entries@[a].0@ != #[trigger] entries@[b].0@,
            decreases entries.len() - i,
        {
            let mut j: usize = 0;
            while j < i
                invariant
                    j <= i < entries.len(),
                    forall|a: int| 0 <= a < j ==> #[trigger] entries@[a].0@ != entries@[i as int].0@,
                decreases i - j,
            {
                if str_eq(entries[j].0.as_str(), entries[i].0.as_str()) {
                    assert(entries@[j as int].0@ == entries@[i as int].0@);
                    return None;
                }
                j = j + 1;
            }
            i = i + 1;
        }
        Some(PageProperties { entries })
    }

    /// The entries, in order.
    pub fn entries(&self) -> (r: &Vec<(String, JsonValue)>)
        ensures
            r@ == self@,
    {
        &self.entries
    }
}

fn raw_property_text_exec(value: &JsonValue, prop_type: &str) -> (out: Vec<char>)
    ensures
        out@ == raw_property_text(*value, prop_type@),
{
    proof {
        reveal_strlit("title");
        reveal_strlit("rich_text");
        reveal_strlit("number");
        reveal_strlit("select");
        reveal_strlit("status");
        reveal_strlit("multi_select");
        reveal_strlit("date");
        reveal_strlit("checkbox");
        reveal_strlit("url");
        reveal_strlit("email");
        reveal_strlit("phone_number");
    }
    if str_eq(prop_type, "title") {
        rich_text_exec(value, "title")
    } else if str_eq(prop_type, "rich_text") {
        rich_text_exec(value, "rich_text")
    } else if str_eq(prop_type, "number") {
        match json_get_exec(value, "number") {
            Some(JsonValue::Number(text)) => chars_of(text.as_str()),
            _ => Vec::new(),
        }
    } else if str_eq(prop_type, "select") || str_eq(prop_type, "status") {
        match json_get_exec(value, prop_type) {
            Some(inner) => string_or_empty(get_str_exec(inner, "name")),
            None => Vec::new(),
        }
    } else if str_eq(prop_type, "multi_select") {
        match json_get_exec(value, "multi_select") {
            Some(JsonValue::Array(items)) => {
                let names = item_names_exec(items);
                join_exec(&names, &chars_of(", "))
            },
            _ => Vec::new(),
        }
    } else if str_eq(prop_type, "date") {
        let (mut out, end) = match json_get_exec(value, "date") {
            Some(d) => (string_or_empty(get_str_exec(d, "start")), get_str_exec(d, "end")),
            None => (Vec::new(), None),
        };
        match end {
            Some(e) => {
                append_all(&mut out, &chars_of(" → "));
                append_all(&mut out, &chars_of(e.as_str()));
                out
            },
            None => out,
        }
    } else if str_eq(prop_type, "checkbox") {
        match json_get_exec(value, "checkbox") {
            Some(JsonValue::Bool(b)) => if *b {
                chars_of("true")
            } else {
                chars_of("false")
            },
            _ => Vec::new(),
        }
    } else if str_eq(prop_type, "url") || str_eq(prop_type, "email") || str_eq(
        prop_type,
        "phone_number",
    ) {
        string_or_empty(get_str_exec(value, prop_type))
    } else {
        Vec::new()
    }
}

fn rich_text_exec(value: &JsonValue, field: &str) -> (out: Vec<char>)
    ensures
        out@ == rich_text_of(*value, field@),
{
    match json_get_exec(value, field) {
        Some(JsonValue::Array(items)) => {
            let mut out: Vec<char> = Vec::new();
            let mut k: usize = 0;
            while k < items.len()
                invariant
                    k <= items.len(),
                    out@ == concat_plain_text(items@.take(k as int)),
                decreases items.len() - k,
            {
                assert(items@.take(k + 1).drop_last() =~= items@.take(k as int));
                let piece = string_or_empty(get_str_exec(&items[k], "plain_text"));
                append_all(&mut out, &piece);
                k = k + 1;
            }
            assert(items@.take(items.len() as int) =~= items@);
            out
        },
        _ => Vec::new(),
    }
}

fn item_names_exec(items: &Vec<JsonValue>) -> (names: Vec<Vec<char>>)
    ensures
        views(names@) == item_names(items@),
{
    let mut names: Vec<Vec<char>> = Vec::new();
    let mut k: usize = 0;
    while k < items.len()
        invariant
            k <= items.len(),
            views(names@) == item_names(items@.take(k as int)),
        decreases items.len() - k,
    {
        assert(items@.take(k + 1).drop_last() =~= items@.take(k as int));
        match get_str_exec(&items[k], "name") {
            Some(n) => {
                let ghost before = views(names@);
                let v = chars_of(n.as_str());
                names.push(v);
                assert(views(names@) =~= before.push(n@));
            },
            None => {},
        }
        k = k + 1;
    }
    assert(items@.take(items.len() as int) =~= items@);
    names
}

fn sanitize_value_exec(s: &Vec<char>) -> (out: Vec<char>)
    ensures
        out@ == sanitize_value(s@),
{
    let mut out: Vec<char> = Vec::new();
    let mut k: usize = 0;
    while k < s.len()
        invariant
            k <= s.len(),
            out@ == sanitize_value(s@.take(k as int)),
        decreases s.len() - k,
    {
        let c = s[k];
        if c == '\t' || c == '\n' || c == '\r' {
            out.push(' ');
        } else {
            out.push(c);
        }
        assert(out@ =~= sanitize_value(s@.take(k + 1)));
        k = k + 1;
    }
    assert(s@.take(s.len() as int) =~= s@);
    out
}

/// Each text is no greater than any later one.
pub open spec fn sorted_texts(s: Seq<Seq<char>>) -> bool {
    forall|i: int, j: int| 0 <= i < j < s.len() ==> #[trigger] text_le(s[i], s[j])
}

/// The sorted arrangement of `names`: same names, each no greater than the next.
pub open spec fn is_sorted_arrangement(sorted: Seq<Seq<char>>, names: Seq<Seq<char>>) -> bool {
    &&& sorted.to_multiset() == names.to_multiset()
    &&& sorted_texts(sorted)
}

proof fn lemma_insert_sorted(old: Seq<Seq<char>>, p: int, x: Seq<char>)
    requires
        0 <= p <= old.len(),
        sorted_texts(old),
        forall|i: int| 0 <= i < p ==> text_le(#[trigger] old[i], x),
        p < old.len() ==> !text_le(old[p], x),
    ensures
        sorted_texts(old.insert(p, x)),
{
    let s = old.insert(p, x);
    if p < old.len() {
        lemma_text_le_total(old[p], x);
    }
    assert forall|i: int, j: int| 0 <= i < j < s.len() implies text_le(s[i], s[j]) by {
        if j < p {
            assert(text_le(old[i], old[j]));
        } else if j == p {
        } else if i == p {
            if j - 1 > p {
                assert(text_le(old[p], old[j - 1]));
                lemma_text_le_transitive(x, old[p], old[j - 1]);
            }
        } else if i < p {
            if j - 1 > p {
                assert(text_le(old[p], old[j - 1]));
                lemma_text_le_transitive(x, old[p], old[j - 1]);
            }
            lemma_text_le_transitive(old[i], x, old[j - 1]);
        } else {
            assert(text_le(old[i - 1], old[j - 1]));
        }
    }
}

/// Insertion of each name at the first position holding a greater one.
fn sort_names(names: &Vec<Vec<char>>) -> (sorted: Vec<Vec<char>>)
    ensures
        is_sorted_arrangement(views(sorted@), views(names@)),
{
    let mut sorted: Vec<Vec<char>> = Vec::new();
    let mut k: usize = 0;
    assert(views(sorted@) =~= Seq::<Seq<char>>::empty());
    assert(views(names@).take(0) =~= Seq::<Seq<char>>::empty());
    while k < names.len()
        invariant
            k <= names.len(),
            is_sorted_arrangement(views(sorted@), views(names@).take(k as int)),
        decreases names.len() - k,
    {
        let x = slice_all(&names[k]);
        let mut p: usize = 0;
        while p < sorted.len() && text_le_exec(&sorted[p], &x)
            invariant
                p <= sorted.len(),
                forall|i: int| 0 <= i < p ==> text_le(#[trigger] views(sorted@)[i], x@),
            decreases sorted.len() - p,
        {
            p = p + 1;
        }
        let ghost old_sorted = views(sorted@);
        proof {
            lemma_insert_sorted(old_sorted, p as int, x@);
        }
        sorted.insert(p, x);
        proof {
            let s = views(sorted@);
            assert(s =~= old_sorted.insert(p as int, x@));
            assert(old_sorted.insert(p as int, x@) =~= old_sorted.take(p as int).push(x@) + old_sorted.skip(p as int));
            assert(old_sorted =~= old_sorted.take(p as int) + old_sorted.skip(p as int));
            lemma_multiset_commutative(old_sorted.take(p as int).push(x@), old_sorted.skip(p as int));
            lemma_multiset_commutative(old_sorted.take(p as int), old_sorted.skip(p as int));
            assert(views(names@).take(k + 1) =~= views(names@).take(k as int).push(names@[k as int]@));
        }
        k = k + 1;
    }
    assert(views(names@).take(names.len() as int) =~= views(names@));
    sorted
}

fn slice_all(v: &Vec<char>) -> (out: Vec<char>)
    ensures
        out@ == v@,
{
    let mut out: Vec<char> = Vec::new();
    append_all(&mut out, v);
    assert(Seq::<char>::empty() + v@ =~= v@);
    out
}

/// The column order of a table of pages: the last title property first, then
/// the other properties' names in sorted order.
pub open spec fn is_column_order(names: Seq<Seq<char>>, entries: Seq<(String, JsonValue)>) -> bool {
    match last_title_before(entries, entries.len() as int) {
        Some(t) => names.len() > 0 && names[0] == entries[t].0@ && is_sorted_arrangement(
            names.drop_first(),
            non_title_names(entries, entries.len() as int),
        ),
        None => is_sorted_arrangement(names, non_title_names(entries, entries.len() as int)),
    }
}

/// Each text is strictly less than any later one.
pub open spec fn strictly_sorted(s: Seq<Seq<char>>) -> bool {
    forall|i: int, j: int| 0 <= i < j < s.len() ==> #[trigger] text_le(s[i], s[j]) && s[i] != s[j]
}

/// The column names after the title (all of them when there is no title)
/// are in strictly increasing order.
pub open spec fn columns_strictly_sorted(names: Seq<Seq<char>>, entries: Seq<(String, JsonValue)>) -> bool {
    match last_title_before(entries, entries.len() as int) {
        Some(_) => strictly_sorted(names.drop_first()),
        None => strictly_sorted(names),
    }
}

proof fn lemma_non_title_names_distinct(entries: Seq<(String, JsonValue)>, n: int)
    requires
        keys_distinct(entries),
        0 <= n <= entries.len(),
    ensures
        non_title_names(entries, n).no_duplicates(),
        forall|k: int|
            0 <= k < non_title_names(entries, n).len() ==> exists|i: int|
                0 <= i < n && #[trigger] entries[i].0@ == #[trigger] non_title_names(entries, n)[k],
    decreases n,
{
    if n > 0 {
        lemma_non_title_names_distinct(entries, n - 1);
        let rest = non_title_names(entries, n - 1);
        if !is_title(entries[n - 1].1) {
            let x = entries[n - 1].0@;
            let nt = rest.push(x);
            assert forall|k: int| 0 <= k < rest.len() implies rest[k] != x by {
                let i = choose|i: int| 0 <= i < n - 1 && #[trigger] entries[i].0@ == rest[k];
                assert(entries[i].0@ != entries[n - 1].0@);
            }
            assert forall|k: int| 0 <= k < nt.len() implies exists|i: int|
                0 <= i < n && #[trigger] entries[i].0@ == #[trigger] nt[k] by {
                if k < rest.len() {
                    let i = choose|i: int| 0 <= i < n - 1 && #[trigger] entries[i].0@ == rest[k];
                    assert(entries[i].0@ == nt[k]);
                } else {
                    assert(entries[n - 1].0@ == nt[k]);
                }
            }
        }
    }
}

proof fn lemma_arrangement_strict(sorted: Seq<Seq<char>>, names: Seq<Seq<char>>)
    requires
        is_sorted_arrangement(sorted, names),
        names.no_duplicates(),
    ensures
        strictly_sorted(sorted),
        sorted.no_duplicates(),
{
    names.lemma_multiset_has_no_duplicates();
    sorted.lemma_multiset_has_no_duplicates_conv();
    assert forall|i: int, j: int| 0 <= i < j < sorted.len() implies #[trigger] text_le(sorted[i], sorted[j])
        && sorted[i] != sorted[j] by {
        assert(text_le(sorted[i], sorted[j]));
    }
}

/// With names distinct, a column order has its names after the title in
/// strictly increasing order.
proof fn lemma_column_order_strict(names: Seq<Seq<char>>, entries: Seq<(String, JsonValue)>)
    requires
        is_column_order(names, entries),
        keys_distinct(entries),
    ensures
        columns_strictly_sorted(names, entries),
{
    let n = entries.len() as int;
    lemma_non_title_names_distinct(entries, n);
    match last_title_before(entries, n) {
        Some(_) => lemma_arrangement_strict(names.drop_first(), non_title_names(entries, n)),
        None => lemma_arrangement_strict(names, non_title_names(entries, n)),
    }
}

proof fn lemma_text_le_antisymmetric(a: Seq<char>, b: Seq<char>)
    requires
        text_le(a, b),
        text_le(b, a),
    ensures
        a == b,
    decreases a.len(),
{
    if a.len() > 0 && b.len() > 0 {
        if a[0] == b[0] {
            lemma_text_le_antisymmetric(a.drop_first(), b.drop_first());
            assert(a =~= seq![a[0]] + a.drop_first());
            assert(b =~= seq![b[0]] + b.drop_first());
        } else {
            char_u32_cast(a[0], a[0] as u32);
            char_u32_cast(b[0], b[0] as u32);
        }
    } else {
        assert(a =~= b);
    }
}

/// Two strictly increasing sequences of the same texts are equal.
proof fn lemma_strictly_sorted_unique(s: Seq<Seq<char>>, t: Seq<Seq<char>>)
    requires
        strictly_sorted(s),
        strictly_sorted(t),
        s.to_multiset() == t.to_multiset(),
    ensures
        s == t,
    decreases s.len(),
{
    assert(s.to_multiset().len() == s.len());
    assert(t.to_multiset().len() == t.len());
    if s.len() == 0 {
        assert(s =~= t);
    } else {
        assert(s.to_multiset().count(s[0]) > 0) by {
            assert(s.contains(s[0]));
        }
        assert(t.contains(s[0]));
        let k = choose|k: int| 0 <= k < t.len() && t[k] == s[0];
        assert(t.to_multiset().count(t[0]) > 0) by {
            assert(t.contains(t[0]));
        }
        assert(s.contains(t[0]));
        let k2 = choose|k: int| 0 <= k < s.len() && s[k] == t[0];
        if s[0] != t[0] {
            assert(k > 0);
            assert(k2 > 0);
            assert(text_le(t[0], t[k]));
            assert(text_le(s[0], s[k2]));
            lemma_text_le_antisymmetric(s[0], t[0]);
        }
        assert(s.remove(0) =~= s.drop_first());
        assert(t.remove(0) =~= t.drop_first());
        let s1 = s.drop_first();
        let t1 = t.drop_first();
        assert forall|i: int, j: int| 0 <= i < j < s1.len() implies #[trigger] text_le(s1[i], s1[j])
            && s1[i] != s1[j] by {
            assert(text_le(s[i + 1], s[j + 1]));
        }
        assert forall|i: int, j: int| 0 <= i < j < t1.len() implies #[trigger] text_le(t1[i], t1[j])
            && t1[i] != t1[j] by {
            assert(text_le(t[i + 1], t[j + 1]));
        }
        lemma_strictly_sorted_unique(s1, t1);
        assert(s[0] == t[0]);
        assert forall|i: int| 0 <= i < s.len() implies s[i] == t[i] by {
            if i > 0 {
                assert(s1[i - 1] == t1[i - 1]);
            }
        }
        assert(s =~= t);
    }
}

/// A column order with its names after the title strictly increasing is
/// unique.
proof fn lemma_column_order_unique(
    c1: Seq<Seq<char>>,
    c2: Seq<Seq<char>>,
    entries: Seq<(String, JsonValue)>,
)
    requires
        is_column_order(c1, entries),
        columns_strictly_sorted(c1, entries),
        is_column_order(c2, entries),
        columns_strictly_sorted(c2, entries),
    ensures
        c1 == c2,
{
    match last_title_before(entries, entries.len() as int) {
        Some(_) => {
            lemma_strictly_sorted_unique(c1.drop_first(), c2.drop_first());
            assert(c1 =~= seq![c1[0]] + c1.drop_first());
            assert(c2 =~= seq![c2[0]] + c2.drop_first());
        },
        None => lemma_strictly_sorted_unique(c1, c2),
    }
}

/// The column names of a table of pages with these properties: the last
/// title property's name first, then the other names in strictly
/// increasing order (there is exactly one such order when no name repeats).
pub open spec fn column_names(entries: Seq<(String, JsonValue)>) -> Seq<Seq<char>> {
    choose|c: Seq<Seq<char>>| is_column_order(c, entries) && columns_strictly_sorted(c, entries)
}

/// The view of a vector of strings.
pub open spec fn string_seq(v: Seq<String>) -> Seq<Seq<char>> {
    v.map_values(|x: String| x@)
}

impl PageProperties {
    /// The text of property `key`.
    pub fn property_text(&self, key: &str) -> (r: String)
        ensures
            r@ == property_text_of(self@, key@),
    {
        let mut i: usize = 0;
        while i < self.entries.len()
            invariant
                i <= self.entries.len(),
                lookup_from(self@, key@, 0) == lookup_from(self@, key@, i as int),
            decreases self.entries.len() - i,
        {
            if str_eq(self.entries[i].0.as_str(), key) {
                let value = &self.entries[i].1;
                return match get_str_exec(value, "type") {
                    None => String::new(),
                    Some(t) => {
                        let raw = raw_property_text_exec(value, t.as_str());
                        to_string(&sanitize_value_exec(&raw))
                    },
                };
            }
            i = i + 1;
        }
        String::new()
    }

    /// The text of the first title property, or the empty text.
    pub fn title_text(&self) -> (r: String)
        ensures
            r@ == match first_title_from(self@, 0) {
                Some(i) => property_text_of(self@, self@[i].0@),
                None => Seq::empty(),
            },
    {
        let mut i: usize = 0;
        while i < self.entries.len()
            invariant
                i <= self.entries.len(),
                first_title_from(self@, 0) == first_title_from(self@, i as int),
            decreases self.entries.len() - i,
        {
            let is_t = match get_str_exec(&self.entries[i].1, "type") {
                Some(t) => str_eq(t.as_str(), "title"),
                None => false,
            };
            if is_t {
                return self.property_text(self.entries[i].0.as_str());
            }
            i = i + 1;
        }
        String::new()
    }

    /// Column names for a table of pages: the title property first, the rest sorted.
    pub fn sorted_names(&self) -> (r: Vec<String>)
        ensures
            is_column_order(string_seq(r@), self@),
            columns_strictly_sorted(string_seq(r@), self@),
            string_seq(r@) == column_names(self@),
    {
        proof {
            use_type_invariant(self);
        }
        let mut title_key: Option<usize> = None;
        let mut others: Vec<Vec<char>> = Vec::new();
        let mut i: usize = 0;
        while i < self.entries.len()
            invariant
                i <= self.entries.len(),
                title_key matches Some(t) ==> t < i,
                last_title_before(self@, i as int) == match title_key {
                    Some(t) => Some(t as int),
                    None => None::<int>,
                },
                views(others@) == non_title_names(self@, i as int),
            decreases self.entries.len() - i,
        {
            let is_t = match get_str_exec(&self.entries[i].1, "type") {
                Some(t) => str_eq(t.as_str(), "title"),
                None => false,
            };
            if is_t {
                title_key = Some(i);
            } else {
                let ghost before = views(others@);
                let name = chars_of(self.entries[i].0.as_str());
                others.push(name);
                assert(views(others@) =~= before.push(self@[i as int].0@));
            }
            i = i + 1;
        }
        let sorted = sort_names(&others);
        let mut result: Vec<String> = Vec::new();
        match title_key {
            Some(t) => {
                let name = to_string(&chars_of(self.entries[t].0.as_str()));
                result.push(name);
            },
            None => {},
        }
        let ghost head = string_seq(result@);
        let mut k: usize = 0;
        while k < sorted.len()
            invariant
                k <= sorted.len(),
                string_seq(result@) == head + views(sorted@).take(k as int),
            decreases sorted.len() - k,
        {
            let ghost before = string_seq(result@);
            let s = to_string(&sorted[k]);
            result.push(s);
            assert(string_seq(result@) =~= before.push(sorted@[k as int]@));
            assert(views(sorted@).take(k + 1) =~= views(sorted@).take(k as int).push(sorted@[k as int]@));
            k = k + 1;
        }
        assert(views(sorted@).take(sorted.len() as int) =~= views(sorted@));
        proof {
            if title_key is Some {
                assert(string_seq(result@).drop_first() =~= views(sorted@));
            } else {
                assert(string_seq(result@) =~= views(sorted@));
            }
            lemma_column_order_strict(string_seq(result@), self@);
            let c = string_seq(result@);
            assert(is_column_order(c, self@) && columns_strictly_sorted(c, self@));
            lemma_column_order_unique(c, column_names(self@), self@);
        }
        result
    }
}

/// Does at most one property have type `title`?
pub open spec fn at_most_one_title(entries: Seq<(String, JsonValue)>) -> bool {
    forall|i: int, j: int|
        0 <= i < entries.len() && 0 <= j < entries.len() && #[trigger] is_title(entries[i].1)
            && #[trigger] is_title(entries[j].1) ==> i == j
}

/// The names of the properties, in order.
pub open spec fn entry_names(entries: Seq<(String, JsonValue)>) -> Seq<Seq<char>> {
    entries.map_values(|e: (String, JsonValue)| e.0@)
}

proof fn lemma_last_title_before(entries: Seq<(String, JsonValue)>, n: int)
    requires
        0 <= n <= entries.len(),
    ensures
        match last_title_before(entries, n) {
            Some(t) => 0 <= t < n && is_title(entries[t].1),
            None => forall|i: int| 0 <= i < n ==> !is_title(#[trigger] entries[i].1),
        },
    decreases n,
{
    if n > 0 {
        lemma_last_title_before(entries, n - 1);
    }
}

proof fn lemma_split_names(entries: Seq<(String, JsonValue)>, n: int)
    requires
        0 <= n <= entries.len(),
        at_most_one_title(entries),
    ensures
        match last_title_before(entries, n) {
            Some(t) => non_title_names(entries, n).to_multiset().insert(entries[t].0@)
                == entry_names(entries.take(n)).to_multiset(),
            None => non_title_names(entries, n).to_multiset() == entry_names(
                entries.take(n),
            ).to_multiset(),
        },
    decreases n,
{
    broadcast use vstd::multiset::group_multiset_axioms;

    if n == 0 {
        assert(entry_names(entries.take(0)) =~= Seq::<Seq<char>>::empty());
    } else {
        let x = entries[n - 1].0@;
        assert(entry_names(entries.take(n)) =~= entry_names(entries.take(n - 1)).push(x));
        lemma_split_names(entries, n - 1);
        lemma_last_title_before(entries, n - 1);
        let prev = non_title_names(entries, n - 1).to_multiset();
        if is_title(entries[n - 1].1) {
            match last_title_before(entries, n - 1) {
                Some(t) => {
                    assert(is_title(entries[t].1));
                },
                None => {},
            }
        } else {
            match last_title_before(entries, n - 1) {
                Some(t) => {
                    let y = entries[t].0@;
                    assert(prev.insert(x).insert(y) =~= prev.insert(y).insert(x));
                },
                None => {},
            }
        }
    }
}

/// When at most one property is a title, the column names are the property
/// names, each exactly once: the title's first, then the others in strictly
/// increasing order.
pub proof fn lemma_column_order_lists_each_name(names: Seq<Seq<char>>, entries: Seq<(String, JsonValue)>)
    requires
        is_column_order(names, entries),
        at_most_one_title(entries),
        keys_distinct(entries),
    ensures
        names.to_multiset() == entry_names(entries).to_multiset(),
        names.len() == entries.len(),
        names.no_duplicates(),
        last_title_before(entries, entries.len() as int) matches Some(t) ==> names[0]
            == entries[t].0@,
        columns_strictly_sorted(names, entries),
{
    lemma_column_order_strict(names, entries);
    lemma_column_order_multiset(names, entries);
    let keys = entry_names(entries);
    assert forall|i: int, j: int| 0 <= i < keys.len() && 0 <= j < keys.len() && i != j implies keys[i]
        != keys[j] by {
        if i < j {
            assert(entries[i].0@ != entries[j].0@);
        } else {
            assert(entries[j].0@ != entries[i].0@);
        }
    }
    keys.lemma_multiset_has_no_duplicates();
    names.lemma_multiset_has_no_duplicates_conv();
    assert(names.to_multiset().len() == names.len());
    assert(keys.to_multiset().len() == keys.len());
    lemma_last_title_before(entries, entries.len() as int);
}

proof fn lemma_column_order_multiset(names: Seq<Seq<char>>, entries: Seq<(String, JsonValue)>)
    requires
        is_column_order(names, entries),
        at_most_one_title(entries),
    ensures
        names.to_multiset() == entry_names(entries).to_multiset(),
{
    let n = entries.len() as int;
    lemma_split_names(entries, n);
    assert(entries.take(n) =~= entries);
    match last_title_before(entries, n) {
        Some(t) => {
            assert(names =~= names.drop_first().insert(0, names[0]));
        },
        None => {},
    }
}

// ---------------------------------------------------------------------------
// API responses
// ---------------------------------------------------------------------------

/// A page's content as the Markdown endpoint returns it.
#[derive(Debug)]
pub struct PageMarkdownResponse {
    pub markdown: String,
    pub truncated: bool,
    pub unknown_block_ids: Vec<String>,
}

/// A page's metadata.
#[derive(Debug)]
pub struct PageMetadata {
    pub id: String,
    pub properties: PageProperties,
}

/// A page of search results.
#[derive(Debug)]
pub struct SearchResponse {
    pub results: Vec<SearchResult>,
    pub has_more: bool,
    pub next_cursor: Option<String>,
}

/// One search hit.
#[derive(Debug)]
pub struct SearchResult {
    pub id: String,
    pub properties: PageProperties,
    pub last_edited_time: String,
    pub url: String,
}

/// A database and its data sources.
#[derive(Debug)]
pub struct DatabaseResponse {
    pub data_sources: Vec<DataSourceInfo>,
}

/// A data source of a database.
#[derive(Debug)]
pub struct DataSourceInfo {
    pub id: String,
}

/// A page of rows from a data-source query.
#[derive(Debug)]
pub struct DataSourceQueryResponse {
    pub results: Vec<QueryResult>,
    pub has_more: bool,
    pub next_cursor: Option<String>,
}

/// One row of a data-source query.
#[derive(Debug)]
pub struct QueryResult {
    pub id: String,
    pub properties: PageProperties,
}

/// The error body the API sends with a failing status.
#[derive(Debug)]
pub struct NotionErrorResponse {
    pub status: u16,
    pub code: String,
    pub message: String,
}

/// A property's text never holds a tab, newline or carriage return, so it
/// fits in one TSV cell.
pub proof fn lemma_property_text_tsv_safe(entries: Seq<(String, JsonValue)>, key: Seq<char>)
    ensures
        forall|j: int|
            0 <= j < property_text_of(entries, key).len() ==> {
                let c = #[trigger] property_text_of(entries, key)[j];
                c != '\t' && c != '\n' && c != '\r'
            },
{
}

} // verus!
