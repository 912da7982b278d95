//! What the command line decides and prints, apart from reading and writing.
use vstd::prelude::*;

use crate::client::{decimal, decimal_exec, NotchError};
use crate::text::{append_all, chars_of, join, join_exec, to_string, trim, trim_slice, views};
use crate::markdown::{compose_output, composed_stdout, composed_warnings, string_views};
use crate::sanitize::{sanitize_checked, sanitize_markdown};
use crate::types::{
    column_names, property_text_of, str_eq, first_title_from, string_seq, DataSourceQueryResponse,
    DatabaseResponse, PageMarkdownResponse, PageMetadata, PageProperties, QueryResult,
    SearchResponse, SearchResult,
};

verus! {

pub open spec fn missing_argument_message() -> Seq<char> {
    "Missing ID/URL argument. Pipe one via stdin or pass `-` to read stdin interactively"@
}

pub open spec fn no_input_message() -> Seq<char> {
    "No input provided. Pass an ID/URL argument or pipe one via stdin"@
}

/// Where the ID/URL comes from: an argument other than `-` is used as it
/// is (`Ok(Some)`); `-`, or no argument with piped stdin, means reading stdin
/// (`Ok(None)`); no argument on a terminal is an error.
pub fn resolve_argument(value: Option<String>, stdin_is_terminal: bool) -> (r: Result<
    Option<String>,
    NotchError,
>)
    ensures
        value matches Some(v) ==> (v@ != "-"@ ==> (r matches Ok(Some(x)) && x@ == v@)),
        value matches Some(v) && v@ == "-"@ ==> r matches Ok(None),
        value is None && !stdin_is_terminal ==> r matches Ok(None),
        value is None && stdin_is_terminal ==> (r matches Err(NotchError::InvalidInput(m)) && m@
            == missing_argument_message()),
{
    match value {
        Some(v) => if !str_eq(v.as_str(), "-") {
            Ok(Some(v))
        } else {
            Ok(None)
        },
        None => if stdin_is_terminal {
            Err(
                NotchError::InvalidInput(
                    to_string(
                        &chars_of(
                            "Missing ID/URL argument. Pipe one via stdin or pass `-` to read stdin interactively",
                        ),
                    ),
                ),
            )
        } else {
            Ok(None)
        },
    }
}

/// The ID/URL read from stdin: the trimmed text, which must not be empty.
pub fn stdin_value(buffer: &str) -> (r: Result<String, NotchError>)
    ensures
        trim(buffer@).len() > 0 ==> (r matches Ok(v) && v@ == trim(buffer@)),
        trim(buffer@).len() == 0 ==> (r matches Err(NotchError::InvalidInput(m)) && m@
            == no_input_message()),
{
    let chars = chars_of(buffer);
    let t = trim_slice(&chars, 0, chars.len());
    assert(chars@.subrange(0, chars@.len() as int) =~= chars@);
    if t.len() == 0 {
        Err(
            NotchError::InvalidInput(
                to_string(&chars_of("No input provided. Pass an ID/URL argument or pipe one via stdin")),
            ),
        )
    } else {
        Ok(to_string(&t))
    }
}

/// The ID/URL to use, given the argument and what stdin holds (read only
/// where the argument says so).
pub fn resolve_resource_input(value: Option<String>, stdin: &str, stdin_is_terminal: bool) -> (r:
    Result<String, NotchError>)
    ensures
        value matches Some(v) ==> (v@ != "-"@ ==> (r matches Ok(x) && x@ == v@)),
        value is None && stdin_is_terminal ==> (r matches Err(NotchError::InvalidInput(m)) && m@
            == missing_argument_message()),
        (value matches Some(v) && v@ == "-"@) || (value is None && !stdin_is_terminal) ==> {
            &&& trim(stdin@).len() > 0 ==> (r matches Ok(x) && x@ == trim(stdin@))
            &&& trim(stdin@).len() == 0 ==> (r matches Err(NotchError::InvalidInput(m)) && m@
                == no_input_message())
        },
{
    match resolve_argument(value, stdin_is_terminal) {
        Ok(Some(v)) => Ok(v),
        Ok(None) => stdin_value(stdin),
        Err(e) => Err(e),
    }
}

/// A search hit's output line: id, title (`(Untitled)` when empty) and last
/// edit time, tab-separated.
pub open spec fn search_line_of(id: Seq<char>, title: Seq<char>, edited: Seq<char>) -> Seq<char> {
    id + "\t"@ + (if title.len() == 0 {
        "(Untitled)"@
    } else {
        title
    }) + "\t"@ + edited
}

/// The title a page's properties give.
pub open spec fn page_title(entries: Seq<(String, crate::types::JsonValue)>) -> Seq<char> {
    match first_title_from(entries, 0) {
        Some(i) => property_text_of(entries, entries[i].0@),
        None => Seq::empty(),
    }
}

pub fn search_line(page: &SearchResult) -> (line: String)
    ensures
        line@ == search_line_of(page.id@, page_title(page.properties@), page.last_edited_time@),
{
    let title = page.properties.title_text();
    let mut v = chars_of(page.id.as_str());
    append_all(&mut v, &chars_of("\t"));
    let t = chars_of(title.as_str());
    if t.len() == 0 {
        append_all(&mut v, &chars_of("(Untitled)"));
    } else {
        append_all(&mut v, &t);
    }
    append_all(&mut v, &chars_of("\t"));
    append_all(&mut v, &chars_of(page.last_edited_time.as_str()));
    to_string(&v)
}

/// The header of a query's TSV output.
pub fn tsv_header(columns: &Vec<String>) -> (line: String)
    ensures
        line@ == "id\t"@ + join(string_seq(columns@), "\t"@),
{
    let cols = to_char_vecs(columns);
    let mut v = chars_of("id\t");
    append_all(&mut v, &join_exec(&cols, &chars_of("\t")));
    to_string(&v)
}

/// A row of a query's TSV output: the id, then each column's property text.
pub fn tsv_row(id: &str, properties: &PageProperties, columns: &Vec<String>) -> (line: String)
    ensures
        line@ == id@ + "\t"@ + join(
            string_seq(columns@).map_values(|c: Seq<char>| property_text_of(properties@, c)),
            "\t"@,
        ),
{
    let mut values: Vec<Vec<char>> = Vec::new();
    let mut k: usize = 0;
    while k < columns.len()
        invariant
            k <= columns.len(),
            views(values@) == string_seq(columns@).take(k as int).map_values(
                |c: Seq<char>| property_text_of(properties@, c),
            ),
        decreases columns.len() - k,
    {
        let ghost before = views(values@);
        let text = properties.property_text(columns[k].as_str());
        let c = chars_of(text.as_str());
        let ghost cv = c@;
        values.push(c);
        assert(views(values@) =~= before.push(cv));
        assert(views(values@) =~= string_seq(columns@).take(k + 1).map_values(
            |c: Seq<char>| property_text_of(properties@, c),
        ));
        k = k + 1;
    }
    assert(string_seq(columns@).take(columns.len() as int) =~= string_seq(columns@));
    let mut v = chars_of(id);
    append_all(&mut v, &chars_of("\t"));
    append_all(&mut v, &join_exec(&values, &chars_of("\t")));
    to_string(&v)
}

fn to_char_vecs(v: &Vec<String>) -> (out: Vec<Vec<char>>)
    ensures
        views(out@) == string_seq(v@),
{
    let mut out: Vec<Vec<char>> = Vec::new();
    let mut k: usize = 0;
    while k < v.len()
        invariant
            k <= v.len(),
            views(out@) == string_seq(v@).take(k as int),
        decreases v.len() - k,
    {
        let ghost before = views(out@);
        let c = chars_of(v[k].as_str());
        let ghost cv = c@;
        out.push(c);
        assert(views(out@) =~= before.push(cv));
        assert(views(out@) =~= string_seq(v@).take(k + 1));
        k = k + 1;
    }
    assert(string_seq(v@).take(v.len() as int) =~= string_seq(v@));
    out
}

/// The data source a database query goes to: the first one.
pub fn first_data_source(db: &DatabaseResponse) -> (r: Result<String, NotchError>)
    ensures
        db.data_sources.len() == 0 ==> r matches Err(NotchError::NoDataSources),
        db.data_sources.len() > 0 ==> (r matches Ok(id) && id@ == db.data_sources@[0].id@),
{
    if db.data_sources.len() == 0 {
        Err(NotchError::NoDataSources)
    } else {
        Ok(to_string(&chars_of(db.data_sources[0].id.as_str())))
    }
}

/// `Warning: <n> block(s) could not be converted to Markdown`.
pub open spec fn unknown_blocks_text(n: nat) -> Seq<char> {
    "Warning: "@ + decimal(n) + " block(s) could not be converted to Markdown"@
}

pub fn unknown_blocks_warning(n: usize) -> (s: String)
    ensures
        s@ == unknown_blocks_text(n as nat),
{
    let mut v = chars_of("Warning: ");
    append_all(&mut v, &decimal_exec(n as u64));
    append_all(&mut v, &chars_of(" block(s) could not be converted to Markdown"));
    to_string(&v)
}

/// `Warning: Results truncated. <n> rows returned, more available`.
pub open spec fn more_rows_text(n: nat) -> Seq<char> {
    "Warning: Results truncated. "@ + decimal(n) + " rows returned, more available"@
}

pub fn more_rows_warning(n: usize) -> (s: String)
    ensures
        s@ == more_rows_text(n as nat),
{
    let mut v = chars_of("Warning: Results truncated. ");
    append_all(&mut v, &decimal_exec(n as u64));
    append_all(&mut v, &chars_of(" rows returned, more available"));
    to_string(&v)
}

/// `No pages found for: <query>`.
pub open spec fn no_pages_text(query: Seq<char>) -> Seq<char> {
    "No pages found for: "@ + query
}

pub fn no_pages_message(query: &str) -> (s: String)
    ensures
        s@ == no_pages_text(query@),
{
    let mut v = chars_of("No pages found for: ");
    append_all(&mut v, &chars_of(query));
    to_string(&v)
}

/// `No rows found for database: <id>`.
pub open spec fn no_rows_text(db_id: Seq<char>) -> Seq<char> {
    "No rows found for database: "@ + db_id
}

pub fn no_rows_message(db_id: &str) -> (s: String)
    ensures
        s@ == no_rows_text(db_id@),
{
    let mut v = chars_of("No rows found for database: ");
    append_all(&mut v, &chars_of(db_id));
    to_string(&v)
}


// ---------------------------------------------------------------------------
// What each command prints
// ---------------------------------------------------------------------------

/// What a command prints: `stdout` as it is, and each `stderr` entry as a
/// line of its own.
#[derive(Debug)]
pub struct CommandOutput {
    pub stdout: String,
    pub stderr: Vec<String>,
}

/// The lines a fetched page sends to stderr, in order: the count of blocks
/// that could not be converted (only when there are some), then the
/// page's own warnings.
pub open spec fn fetch_stderr(unknown_blocks: nat, title: Seq<char>, body: Seq<char>, truncated: bool) -> Seq<Seq<char>> {
    (if unknown_blocks > 0 {
        seq![unknown_blocks_text(unknown_blocks)]
    } else {
        Seq::empty()
    }) + composed_warnings(title, body, truncated)
}

/// What `fetch` prints for a page: the page under its title (capped at
/// 100KB) on stdout, the warnings on stderr. `None` where the page's
/// Markdown holds a tag that cannot be sliced.
pub fn fetch_output(md: &PageMarkdownResponse, meta: &PageMetadata) -> (r: Option<CommandOutput>)
    ensures
        r is None <==> sanitize_markdown(md.markdown@) is None,
        r matches Some(o) ==> o.stdout@ == composed_stdout(
            page_title(meta.properties@),
            sanitize_markdown(md.markdown@)->0,
        ),
        r matches Some(o) ==> string_views(o.stderr@) == fetch_stderr(
            md.unknown_block_ids.len() as nat,
            page_title(meta.properties@),
            sanitize_markdown(md.markdown@)->0,
            md.truncated,
        ),
{
    let title = meta.properties.title_text();
    let body = sanitize_checked(md.markdown.as_str())?;
    let mut res = compose_output(title.as_str(), body.as_str(), md.truncated);
    let mut stderr: Vec<String> = Vec::new();
    let n = md.unknown_block_ids.len();
    if n > 0 {
        stderr.push(unknown_blocks_warning(n));
    }
    let ghost head = string_views(stderr@);
    assert(head =~= (if n > 0 {
        seq![unknown_blocks_text(n as nat)]
    } else {
        Seq::<Seq<char>>::empty()
    }));
    let ghost warnings = res.warnings@;
    stderr.append(&mut res.warnings);
    assert(string_views(stderr@) =~= head + string_views(warnings));
    Some(CommandOutput { stdout: res.stdout, stderr })
}

/// The stdout of a search with results: one line per page, in order.
pub open spec fn search_lines(results: Seq<SearchResult>) -> Seq<char>
    decreases results.len(),
{
    if results.len() == 0 {
        Seq::empty()
    } else {
        let last = results.last();
        search_lines(results.drop_last()) + search_line_of(
            last.id@,
            page_title(last.properties@),
            last.last_edited_time@,
        ) + "\n"@
    }
}

/// What `search` prints: a line per page found, or, when none was, a
/// message on stderr and nothing on stdout.
pub fn search_output(query: &str, resp: &SearchResponse) -> (r: CommandOutput)
    ensures
        resp.results.len() == 0 ==> r.stdout@ == Seq::<char>::empty() && string_views(r.stderr@)
            == seq![no_pages_text(query@)],
        resp.results.len() > 0 ==> r.stdout@ == search_lines(resp.results@) && r.stderr@.len()
            == 0,
{
    if resp.results.len() == 0 {
        let mut stderr: Vec<String> = Vec::new();
        stderr.push(no_pages_message(query));
        assert(string_views(stderr@) =~= seq![no_pages_text(query@)]);
        return CommandOutput { stdout: String::new(), stderr };
    }
    let mut v: Vec<char> = Vec::new();
    let mut k: usize = 0;
    assert(resp.results@.take(0) =~= Seq::<SearchResult>::empty());
    while k < resp.results.len()
        invariant
            k <= resp.results.len(),
            v@ == search_lines(resp.results@.take(k as int)),
        decreases resp.results.len() - k,
    {
        assert(resp.results@.take(k + 1).drop_last() =~= resp.results@.take(k as int));
        let line = search_line(&resp.results[k]);
        append_all(&mut v, &chars_of(line.as_str()));
        append_all(&mut v, &chars_of("\n"));
        k = k + 1;
    }
    assert(resp.results@.take(resp.results.len() as int) =~= resp.results@);
    CommandOutput { stdout: to_string(&v), stderr: Vec::new() }
}

/// A row of a query's TSV output: the id, then each column's property text.
pub open spec fn row_line_of(id: Seq<char>, entries: Seq<(String, crate::types::JsonValue)>, cols: Seq<Seq<char>>) -> Seq<char> {
    id + "\t"@ + join(cols.map_values(|c: Seq<char>| property_text_of(entries, c)), "\t"@)
}

/// The rows of a query's TSV output, each ending in a newline.
pub open spec fn query_rows(results: Seq<QueryResult>, cols: Seq<Seq<char>>) -> Seq<char>
    decreases results.len(),
{
    if results.len() == 0 {
        Seq::empty()
    } else {
        let last = results.last();
        query_rows(results.drop_last(), cols) + row_line_of(last.id@, last.properties@, cols)
            + "\n"@
    }
}

/// The stdout of a query with rows: the header line, then the rows.
pub open spec fn query_stdout(results: Seq<QueryResult>, cols: Seq<Seq<char>>) -> Seq<char> {
    "id\t"@ + join(cols, "\t"@) + "\n"@ + query_rows(results, cols)
}

/// What `query` prints: a TSV table whose columns are those of the first
/// row's properties (title first, then sorted), with a warning when more
/// rows are available; or, when there are no rows, a message on stderr and
/// nothing on stdout.
pub fn query_output(db_id: &str, resp: &DataSourceQueryResponse) -> (r: CommandOutput)
    ensures
        resp.results.len() == 0 ==> r.stdout@ == Seq::<char>::empty() && string_views(r.stderr@)
            == seq![no_rows_text(db_id@)],
        resp.results.len() > 0 ==> r.stdout@ == query_stdout(
            resp.results@,
            column_names(resp.results@[0].properties@),
        ),
        resp.results.len() > 0 ==> string_views(r.stderr@) == (if resp.has_more {
            seq![more_rows_text(resp.results.len() as nat)]
        } else {
            Seq::<Seq<char>>::empty()
        }),
{
    if resp.results.len() == 0 {
        let mut stderr: Vec<String> = Vec::new();
        stderr.push(no_rows_message(db_id));
        assert(string_views(stderr@) =~= seq![no_rows_text(db_id@)]);
        return CommandOutput { stdout: String::new(), stderr };
    }
    let mut stderr: Vec<String> = Vec::new();
    if resp.has_more {
        stderr.push(more_rows_warning(resp.results.len()));
    }
    assert(string_views(stderr@) =~= (if resp.has_more {
        seq![more_rows_text(resp.results.len() as nat)]
    } else {
        Seq::<Seq<char>>::empty()
    }));
    let columns = resp.results[0].properties.sorted_names();
    let ghost cols = string_seq(columns@);
    let header = tsv_header(&columns);
    let mut v = chars_of(header.as_str());
    append_all(&mut v, &chars_of("\n"));
    let ghost head = v@;
    let mut k: usize = 0;
    assert(resp.results@.take(0) =~= Seq::<QueryResult>::empty());
    assert(head + query_rows(resp.results@.take(0), cols) =~= head);
    while k < resp.results.len()
        invariant
            k <= resp.results.len(),
            cols == string_seq(columns@),
            v@ == head + query_rows(resp.results@.take(k as int), cols),
        decreases resp.results.len() - k,
    {
        assert(resp.results@.take(k + 1).drop_last() =~= resp.results@.take(k as int));
        let row = &resp.results[k];
        let line = tsv_row(row.id.as_str(), &row.properties, &columns);
        assert(line@ == row_line_of(row.id@, row.properties@, cols));
        let ghost before = v@;
        append_all(&mut v, &chars_of(line.as_str()));
        append_all(&mut v, &chars_of("\n"));
        assert(v@ =~= head + query_rows(resp.results@.take(k + 1), cols));
        k = k + 1;
    }
    assert(resp.results@.take(resp.results.len() as int) =~= resp.results@);
    assert(v@ =~= query_stdout(resp.results@, cols));
    CommandOutput { stdout: to_string(&v), stderr }
}

} // verus!
