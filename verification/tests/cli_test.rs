use notch::cli::{
    fetch_output, query_output, search_output, first_data_source, more_rows_warning, no_pages_message, no_rows_message, resolve_argument,
    resolve_resource_input, search_line, stdin_value, tsv_header, tsv_row, unknown_blocks_warning,
};
use notch::client::NotchError;
use notch::types::{
    DataSourceInfo, DataSourceQueryResponse, DatabaseResponse, JsonValue, PageMarkdownResponse,
    PageMetadata, PageProperties, QueryResult, SearchResponse, SearchResult,
};

#[test]
fn resolve_resource_input_handles_positional_and_stdin_cases() {
    for (input, stdin, stdin_is_terminal, expected) in [
        (Some("abc123"), "", false, "abc123"),
        (Some("-"), "abc123\n", true, "abc123"),
        (None, "abc123\n", false, "abc123"),
    ] {
        let value =
            resolve_resource_input(input.map(str::to_string), stdin, stdin_is_terminal).unwrap();
        assert_eq!(value, expected);
    }
}

#[test]
fn resolve_resource_input_rejects_missing_argument_on_tty() {
    let err = resolve_resource_input(None, "", true).unwrap_err();
    assert_eq!(
        err.to_string(),
        "Missing ID/URL argument. Pipe one via stdin or pass `-` to read stdin interactively"
    );
}

#[test]
fn resolve_resource_input_rejects_empty_stdin_with_dash() {
    let err = resolve_resource_input(Some("-".to_string()), "", true).unwrap_err();
    assert_eq!(
        err.to_string(),
        "No input provided. Pass an ID/URL argument or pipe one via stdin"
    );
}

#[test]
fn resolve_resource_input_rejects_empty_piped_stdin() {
    let err = resolve_resource_input(None, "", false).unwrap_err();
    assert_eq!(
        err.to_string(),
        "No input provided. Pass an ID/URL argument or pipe one via stdin"
    );
}

#[test]
fn stdin_is_read_only_when_needed() {
    assert_eq!(resolve_argument(Some("x".to_string()), true).unwrap(), Some("x".to_string()));
    assert_eq!(resolve_argument(Some("-".to_string()), false).unwrap(), None);
    assert_eq!(resolve_argument(None, false).unwrap(), None);
    assert!(matches!(resolve_argument(None, true), Err(NotchError::InvalidInput(_))));
    assert_eq!(stdin_value("  \u{3000}id\t\n").unwrap(), "id");
    assert!(stdin_value(" \n\t ").is_err());
}

fn title_props(title: &str) -> PageProperties {
    PageProperties::from_entries(vec![(
        "Name".to_string(),
        JsonValue::Object(vec![
            ("type".to_string(), JsonValue::Str("title".to_string())),
            (
                "title".to_string(),
                JsonValue::Array(vec![JsonValue::Object(vec![(
                    "plain_text".to_string(),
                    JsonValue::Str(title.to_string()),
                )])]),
            ),
        ]),
    )])
    .unwrap()
}

#[test]
fn search_lines_fall_back_to_untitled() {
    let page = SearchResult {
        id: "page-1".to_string(),
        properties: title_props("Found Page"),
        last_edited_time: "2026-03-13T10:00:00.000Z".to_string(),
        url: "https://www.notion.so/Found-Page-abc123".to_string(),
    };
    assert_eq!(search_line(&page), "page-1\tFound Page\t2026-03-13T10:00:00.000Z");
    let untitled = SearchResult {
        id: "p2".to_string(),
        properties: title_props(""),
        last_edited_time: "t".to_string(),
        url: String::new(),
    };
    assert_eq!(search_line(&untitled), "p2\t(Untitled)\tt");
}

#[test]
fn tsv_lines() {
    let props = title_props("Item 1");
    let columns = props.sorted_names();
    assert_eq!(tsv_header(&columns), "id\tName");
    assert_eq!(tsv_row("row-1", &props, &columns), "row-1\tItem 1");
    let cols = vec!["Name".to_string(), "Missing".to_string()];
    assert_eq!(tsv_header(&cols), "id\tName\tMissing");
    assert_eq!(tsv_row("r", &props, &cols), "r\tItem 1\t");
}

#[test]
fn data_source_choice() {
    let empty = DatabaseResponse { data_sources: vec![] };
    assert!(matches!(first_data_source(&empty), Err(NotchError::NoDataSources)));
    let db = DatabaseResponse {
        data_sources: vec![
            DataSourceInfo { id: "ds-123".to_string() },
            DataSourceInfo { id: "ds-2".to_string() },
        ],
    };
    assert_eq!(first_data_source(&db).unwrap(), "ds-123");
}

#[test]
fn messages() {
    assert_eq!(
        unknown_blocks_warning(3),
        "Warning: 3 block(s) could not be converted to Markdown"
    );
    assert_eq!(
        more_rows_warning(100),
        "Warning: Results truncated. 100 rows returned, more available"
    );
    assert_eq!(no_pages_message("q"), "No pages found for: q");
    assert_eq!(no_rows_message("db"), "No rows found for database: db");
}

fn metadata(title: &str) -> PageMetadata {
    PageMetadata { id: "page".to_string(), properties: title_props(title) }
}

#[test]
fn fetch_output_warns_of_unconverted_blocks_only_when_there_are_some() {
    let md = PageMarkdownResponse {
        markdown: "Hello <br>world".to_string(),
        truncated: false,
        unknown_block_ids: vec![],
    };
    let out = fetch_output(&md, &metadata("My Page")).unwrap();
    assert_eq!(out.stdout, "# My Page\n\nHello \nworld");
    assert!(out.stderr.is_empty());
    let md = PageMarkdownResponse {
        markdown: "x".to_string(),
        truncated: true,
        unknown_block_ids: vec!["a".to_string(), "b".to_string()],
    };
    let out = fetch_output(&md, &metadata("")).unwrap();
    assert_eq!(out.stdout, "x");
    assert_eq!(
        out.stderr,
        vec![
            "Warning: 2 block(s) could not be converted to Markdown".to_string(),
            "Warning: Page content was truncated by Notion API (page too large)".to_string(),
        ]
    );
}

#[test]
fn fetch_output_refuses_unsliceable_markdown() {
    let md = PageMarkdownResponse {
        markdown: "<equation</equation>".to_string(),
        truncated: false,
        unknown_block_ids: vec![],
    };
    assert!(fetch_output(&md, &metadata("T")).is_none());
}

#[test]
fn search_output_lists_pages_or_says_none_found() {
    let empty = SearchResponse { results: vec![], has_more: false, next_cursor: None };
    let out = search_output("notes", &empty);
    assert_eq!(out.stdout, "");
    assert_eq!(out.stderr, vec!["No pages found for: notes".to_string()]);
    let resp = SearchResponse {
        results: vec![
            SearchResult {
                id: "p1".to_string(),
                properties: title_props("Found"),
                last_edited_time: "t1".to_string(),
                url: String::new(),
            },
            SearchResult {
                id: "p2".to_string(),
                properties: title_props(""),
                last_edited_time: "t2".to_string(),
                url: String::new(),
            },
        ],
        has_more: false,
        next_cursor: None,
    };
    let out = search_output("notes", &resp);
    assert_eq!(out.stdout, "p1\tFound\tt1\np2\t(Untitled)\tt2\n");
    assert!(out.stderr.is_empty());
}

#[test]
fn query_output_prints_a_table_or_says_no_rows() {
    let empty = DataSourceQueryResponse { results: vec![], has_more: false, next_cursor: None };
    let out = query_output("db", &empty);
    assert_eq!(out.stdout, "");
    assert_eq!(out.stderr, vec!["No rows found for database: db".to_string()]);
    let resp = DataSourceQueryResponse {
        results: vec![
            QueryResult { id: "row-1".to_string(), properties: title_props("Item 1") },
            QueryResult { id: "row-2".to_string(), properties: title_props("Item 2") },
        ],
        has_more: true,
        next_cursor: Some("c".to_string()),
    };
    let out = query_output("db", &resp);
    assert_eq!(out.stdout, "id\tName\nrow-1\tItem 1\nrow-2\tItem 2\n");
    assert_eq!(
        out.stderr,
        vec!["Warning: Results truncated. 2 rows returned, more available".to_string()]
    );
}
