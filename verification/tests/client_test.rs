use notch::client::{
    bearer_value, classify_response, endpoint_url_exec, notion_api_base_exec, notion_version,
    page_id_from_url_parts, parse_page_id, parse_u64_exec, retry_step_exec, Endpoint, NotchError,
    RetryStep, UrlParts,
};
use notch::types::NotionErrorResponse;

#[test]
fn test_parse_uuid_direct() {
    let id = "12345678-1234-1234-1234-123456789abc";
    assert_eq!(parse_page_id(id).unwrap(), id);
}

#[test]
fn test_parse_hex32() {
    let hex = "123456781234123412341234567890ab";
    assert_eq!(
        parse_page_id(hex).unwrap(),
        "12345678-1234-1234-1234-1234567890ab"
    );
}

#[test]
fn test_parse_notion_url_with_title() {
    let url = "https://www.notion.so/My-Page-Title-123456781234123412341234567890ab";
    assert_eq!(
        parse_page_id(url).unwrap(),
        "12345678-1234-1234-1234-1234567890ab"
    );
}

#[test]
fn test_parse_notion_url_with_workspace() {
    let url = "https://www.notion.so/workspace/123456781234123412341234567890ab";
    assert_eq!(
        parse_page_id(url).unwrap(),
        "12345678-1234-1234-1234-1234567890ab"
    );
}

#[test]
fn test_parse_notion_url_with_query_param() {
    let url = "https://www.notion.so/page?p=123456781234123412341234567890ab";
    assert_eq!(
        parse_page_id(url).unwrap(),
        "12345678-1234-1234-1234-1234567890ab"
    );
}

#[test]
fn test_parse_invalid_url() {
    assert!(parse_page_id("https://example.com/page").is_err());
}

#[test]
fn test_parse_spoofed_domain_rejected() {
    assert!(
        parse_page_id("https://evil-notion.so/Page-123456781234123412341234567890ab").is_err()
    );
}

#[test]
fn test_parse_invalid_string() {
    assert!(parse_page_id("not-a-valid-id").is_err());
}

#[test]
fn test_parse_notion_site_url() {
    let url = "https://myworkspace.notion.site/Page-123456781234123412341234567890ab";
    assert_eq!(
        parse_page_id(url).unwrap(),
        "12345678-1234-1234-1234-1234567890ab"
    );
}

#[test]
fn test_parse_notion_url_without_www() {
    let url = "https://notion.so/Page-123456781234123412341234567890ab";
    assert_eq!(
        parse_page_id(url).unwrap(),
        "12345678-1234-1234-1234-1234567890ab"
    );
}

#[test]
fn test_parse_notion_url_with_fragment() {
    let url = "https://www.notion.so/Page-123456781234123412341234567890ab#section";
    assert_eq!(
        parse_page_id(url).unwrap(),
        "12345678-1234-1234-1234-1234567890ab"
    );
}

#[test]
fn test_parse_notion_url_with_uuid_in_path() {
    let url = "https://www.notion.so/12345678-1234-1234-1234-1234567890ab";
    assert_eq!(
        parse_page_id(url).unwrap(),
        "12345678-1234-1234-1234-1234567890ab"
    );
}

#[test]
fn test_parse_empty_string() {
    assert!(parse_page_id("").is_err());
}

#[test]
fn parse_error_names_the_input() {
    match parse_page_id("https://example.com/page") {
        Err(NotchError::InvalidUrl(s)) => assert_eq!(s, "https://example.com/page"),
        other => panic!("expected InvalidUrl, got {other:?}"),
    }
}

#[test]
fn parsed_ids_parse_to_themselves() {
    let id = parse_page_id("https://www.notion.so/Page-123456781234123412341234567890ab").unwrap();
    assert_eq!(parse_page_id(&id).unwrap(), id);
}

#[test]
fn uppercase_hex_is_accepted() {
    assert_eq!(
        parse_page_id("123456781234123412341234567890AB").unwrap(),
        "12345678-1234-1234-1234-1234567890AB"
    );
}

#[test]
fn url_parts_path_decides_the_id() {
    // The host comes from the parser, not from the text of the argument.
    let parts = UrlParts {
        host: Some("docs.notion.site".to_string()),
        path: "/a/b/Title-abcdefabcdefabcdefabcdefabcdefab".to_string(),
        query: vec![],
    };
    assert_eq!(
        page_id_from_url_parts("whatever", Some(parts)).unwrap(),
        "abcdefab-cdef-abcd-efab-cdefabcdefab"
    );
    let parts = UrlParts {
        host: None,
        path: "/abcdefabcdefabcdefabcdefabcdefab".to_string(),
        query: vec![],
    };
    assert!(page_id_from_url_parts("x", Some(parts)).is_err());
    assert!(page_id_from_url_parts("x", None).is_err());
}

#[test]
fn query_value_must_be_hex32() {
    let parts = UrlParts {
        host: Some("notion.so".to_string()),
        path: "/page".to_string(),
        query: vec![
            ("p".to_string(), "nothex".to_string()),
            ("p".to_string(), "0123456789abcdef0123456789abcdef".to_string()),
        ],
    };
    assert_eq!(
        page_id_from_url_parts("x", Some(parts)).unwrap(),
        "01234567-89ab-cdef-0123-456789abcdef"
    );
}

#[test]
fn error_messages() {
    assert_eq!(
        NotchError::TokenNotSet.to_string(),
        "NOTION_TOKEN not set. Create an integration at https://www.notion.so/profile/integrations"
    );
    assert_eq!(
        NotchError::NotFoundOrForbidden.to_string(),
        "Page not found. Ensure the page is shared with your integration"
    );
    assert_eq!(
        NotchError::RateLimited.to_string(),
        "Rate limited by Notion API. Please wait and retry"
    );
    assert_eq!(
        NotchError::Api { status: 502, message: "HTTP 502".to_string() }.to_string(),
        "Notion API error (502): HTTP 502"
    );
    assert_eq!(NotchError::NoDataSources.to_string(), "Database has no data sources");
    assert_eq!(
        NotchError::InvalidUrl("abc".to_string()).to_string(),
        "Invalid Notion URL: abc"
    );
    assert_eq!(NotchError::InvalidInput("msg".to_string()).to_string(), "msg");
    assert_eq!(
        NotchError::Io("broken pipe".to_string()).to_string(),
        "Failed to read stdin: broken pipe"
    );
    assert_eq!(NotchError::Http("timeout".to_string()).to_string(), "timeout");
    assert_eq!(
        NotchError::Api { status: 0, message: "x".to_string() }.to_string(),
        "Notion API error (0): x"
    );
}

#[test]
fn retry_waits() {
    assert!(matches!(retry_step_exec(0, 429, Some("0")), RetryStep::WaitSeconds(0)));
    assert!(matches!(retry_step_exec(0, 429, Some("7")), RetryStep::WaitSeconds(7)));
    assert!(matches!(retry_step_exec(1, 429, Some("soon")), RetryStep::WaitSeconds(1)));
    assert!(matches!(retry_step_exec(2, 429, None), RetryStep::WaitSeconds(1)));
    assert!(matches!(retry_step_exec(0, 500, None), RetryStep::WaitMillis(100)));
    assert!(matches!(retry_step_exec(1, 503, None), RetryStep::WaitMillis(200)));
    assert!(matches!(retry_step_exec(2, 599, None), RetryStep::WaitMillis(400)));
    assert!(matches!(retry_step_exec(0, 200, None), RetryStep::Done));
    assert!(matches!(retry_step_exec(0, 404, None), RetryStep::Done));
    assert!(matches!(retry_step_exec(0, 600, None), RetryStep::Done));
    assert!(matches!(retry_step_exec(3, 429, Some("7")), RetryStep::Done));
    assert!(matches!(retry_step_exec(3, 500, None), RetryStep::Done));
}

#[test]
fn parse_u64_matches_std() {
    for s in ["0", "42", "+7", "", "+", "-1", " 1", "1 ", "18446744073709551615", "18446744073709551616", "007", "1a"] {
        assert_eq!(parse_u64_exec(s), s.parse::<u64>().ok(), "input {s:?}");
    }
}

#[test]
fn classify_statuses() {
    assert!(classify_response(200, None).is_none());
    assert!(matches!(classify_response(403, None), Some(NotchError::NotFoundOrForbidden)));
    assert!(matches!(classify_response(404, None), Some(NotchError::NotFoundOrForbidden)));
    assert!(matches!(classify_response(429, None), Some(NotchError::RateLimited)));
    let body = NotionErrorResponse {
        status: 500,
        code: "internal_server_error".to_string(),
        message: "Internal server error".to_string(),
    };
    match classify_response(500, Some(body)) {
        Some(NotchError::Api { status, message }) => {
            assert_eq!(status, 500);
            assert_eq!(message, "Internal server error");
        }
        other => panic!("got {other:?}"),
    }
    match classify_response(502, None) {
        Some(NotchError::Api { status, message }) => {
            assert_eq!(status, 502);
            assert_eq!(message, "HTTP 502");
        }
        other => panic!("got {other:?}"),
    }
}

#[test]
fn endpoints_and_headers() {
    let base = notion_api_base_exec();
    assert_eq!(base, "https://api.notion.com/v1");
    assert_eq!(
        endpoint_url_exec(&base, Endpoint::PageMarkdown, "abc"),
        "https://api.notion.com/v1/pages/abc/markdown"
    );
    assert_eq!(endpoint_url_exec("b", Endpoint::Page, "abc"), "b/pages/abc");
    assert_eq!(endpoint_url_exec("b", Endpoint::Database, "d"), "b/databases/d");
    assert_eq!(
        endpoint_url_exec("b", Endpoint::DataSourceQuery, "ds"),
        "b/data_sources/ds/query"
    );
    assert_eq!(endpoint_url_exec("b", Endpoint::Search, "ignored"), "b/search");
    assert_eq!(bearer_value("tok"), "Bearer tok");
    assert_eq!(notion_version(), "2026-03-11");
}
