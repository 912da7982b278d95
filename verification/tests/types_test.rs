use std::collections::HashMap;

use notch::types::{
    get_str_exec, json_get_exec, DataSourceInfo, DataSourceQueryResponse, DatabaseResponse, JsonValue, PageProperties,
    QueryResult,
};
use serde_json::Value;

fn format_number(n: f64) -> String {
    if n.fract() == 0.0 && (i64::MIN as f64..=i64::MAX as f64).contains(&n) {
        (n as i64).to_string()
    } else {
        n.to_string()
    }
}

fn to_json(v: &Value) -> JsonValue {
    match v {
        Value::Null => JsonValue::Null,
        Value::Bool(b) => JsonValue::Bool(*b),
        Value::Number(n) => JsonValue::Number(n.as_f64().map(format_number).unwrap_or_default()),
        Value::String(s) => JsonValue::Str(s.clone()),
        Value::Array(a) => JsonValue::Array(a.iter().map(to_json).collect()),
        Value::Object(m) => {
            JsonValue::Object(m.iter().map(|(k, v)| (k.clone(), to_json(v))).collect())
        }
    }
}

fn properties_of(v: &Value) -> PageProperties {
    let map: HashMap<String, Value> = serde_json::from_value(v.clone()).unwrap();
    PageProperties::from_entries(map.iter().map(|(k, v)| (k.clone(), to_json(v))).collect()).unwrap()
}

fn properties(json: &str) -> PageProperties {
    properties_of(&serde_json::from_str::<Value>(json).unwrap())
}

fn database_response(json: &str) -> DatabaseResponse {
    let v: Value = serde_json::from_str(json).unwrap();
    DatabaseResponse {
        data_sources: v["data_sources"]
            .as_array()
            .unwrap()
            .iter()
            .map(|d| DataSourceInfo {
                id: d["id"].as_str().unwrap().to_string(),
            })
            .collect(),
    }
}

fn query_response(json: &str) -> DataSourceQueryResponse {
    let v: Value = serde_json::from_str(json).unwrap();
    DataSourceQueryResponse {
        results: v["results"]
            .as_array()
            .unwrap()
            .iter()
            .map(|r| QueryResult {
                id: r["id"].as_str().unwrap().to_string(),
                properties: properties_of(&r["properties"]),
            })
            .collect(),
        has_more: v["has_more"].as_bool().unwrap(),
        next_cursor: v["next_cursor"].as_str().map(str::to_string),
    }
}

#[test]
fn test_title_text_empty_properties() {
    let props = properties("{}");
    assert_eq!(props.title_text(), "");
}

#[test]
fn test_title_text_no_title_type() {
    let props =
        properties(r#"{"Tags": {"type": "multi_select"}}"#);
    assert_eq!(props.title_text(), "");
}

#[test]
fn test_title_text_with_custom_name() {
    let json = r#"{"Name": {"type": "title", "title": [{"plain_text": "My Page"}]}}"#;
    let props = properties(json);
    assert_eq!(props.title_text(), "My Page");
}

#[test]
fn test_title_text_multi_segment() {
    let json = r#"{"Title": {"type": "title", "title": [{"plain_text": "Hello "}, {"plain_text": "World"}]}}"#;
    let props = properties(json);
    assert_eq!(props.title_text(), "Hello World");
}

#[test]
fn test_property_text_title() {
    let json = r#"{"Name": {"type": "title", "title": [{"plain_text": "Hello"}]}}"#;
    let props = properties(json);
    assert_eq!(props.property_text("Name"), "Hello");
}

#[test]
fn test_property_text_rich_text() {
    let json = r#"{"Desc": {"type": "rich_text", "rich_text": [{"plain_text": "world"}]}}"#;
    let props = properties(json);
    assert_eq!(props.property_text("Desc"), "world");
}

#[test]
fn test_property_text_number() {
    let json = r#"{"Count": {"type": "number", "number": 42}}"#;
    let props = properties(json);
    assert_eq!(props.property_text("Count"), "42");
}

#[test]
fn test_property_text_number_null() {
    let json = r#"{"Count": {"type": "number", "number": null}}"#;
    let props = properties(json);
    assert_eq!(props.property_text("Count"), "");
}

#[test]
fn test_property_text_select() {
    let json = r#"{"Status": {"type": "select", "select": {"name": "Done"}}}"#;
    let props = properties(json);
    assert_eq!(props.property_text("Status"), "Done");
}

#[test]
fn test_property_text_select_null() {
    let json = r#"{"Status": {"type": "select", "select": null}}"#;
    let props = properties(json);
    assert_eq!(props.property_text("Status"), "");
}

#[test]
fn test_property_text_status() {
    let json = r#"{"State": {"type": "status", "status": {"name": "In Progress"}}}"#;
    let props = properties(json);
    assert_eq!(props.property_text("State"), "In Progress");
}

#[test]
fn test_property_text_multi_select() {
    let json =
        r#"{"Tags": {"type": "multi_select", "multi_select": [{"name": "A"}, {"name": "B"}]}}"#;
    let props = properties(json);
    assert_eq!(props.property_text("Tags"), "A, B");
}

#[test]
fn test_property_text_date() {
    let json = r#"{"Due": {"type": "date", "date": {"start": "2026-03-16", "end": null}}}"#;
    let props = properties(json);
    assert_eq!(props.property_text("Due"), "2026-03-16");
}

#[test]
fn test_property_text_date_range() {
    let json =
        r#"{"Period": {"type": "date", "date": {"start": "2026-03-16", "end": "2026-03-20"}}}"#;
    let props = properties(json);
    assert_eq!(props.property_text("Period"), "2026-03-16 → 2026-03-20");
}

#[test]
fn test_property_text_checkbox_true() {
    let json = r#"{"Done": {"type": "checkbox", "checkbox": true}}"#;
    let props = properties(json);
    assert_eq!(props.property_text("Done"), "true");
}

#[test]
fn test_property_text_checkbox_false() {
    let json = r#"{"Done": {"type": "checkbox", "checkbox": false}}"#;
    let props = properties(json);
    assert_eq!(props.property_text("Done"), "false");
}

#[test]
fn test_property_text_url() {
    let json = r#"{"Link": {"type": "url", "url": "https://example.com"}}"#;
    let props = properties(json);
    assert_eq!(props.property_text("Link"), "https://example.com");
}

#[test]
fn test_property_text_email() {
    let json = r#"{"Mail": {"type": "email", "email": "a@b.com"}}"#;
    let props = properties(json);
    assert_eq!(props.property_text("Mail"), "a@b.com");
}

#[test]
fn test_property_text_phone() {
    let json = r#"{"Phone": {"type": "phone_number", "phone_number": "+81-90-1234-5678"}}"#;
    let props = properties(json);
    assert_eq!(props.property_text("Phone"), "+81-90-1234-5678");
}

#[test]
fn test_property_text_unsupported_type() {
    let json = r#"{"Calc": {"type": "formula", "formula": {"type": "string", "string": "x"}}}"#;
    let props = properties(json);
    assert_eq!(props.property_text("Calc"), "");
}

#[test]
fn test_property_text_missing_key() {
    let props = properties("{}");
    assert_eq!(props.property_text("Missing"), "");
}

#[test]
fn test_database_response_deserialize() {
    let json = r#"{"data_sources": [{"id": "ds-123"}]}"#;
    let resp = database_response(json);
    assert_eq!(resp.data_sources.len(), 1);
    assert_eq!(resp.data_sources[0].id, "ds-123");
}

#[test]
fn test_database_response_empty_data_sources() {
    let json = r#"{"data_sources": []}"#;
    let resp = database_response(json);
    assert!(
        resp.data_sources.is_empty(),
        "expected empty, got: {:?}",
        resp.data_sources
    );
}

#[test]
fn test_query_response_deserialize() {
    let json = r#"{
        "results": [{"id": "page-1", "properties": {"Name": {"type": "title", "title": [{"plain_text": "Task"}]}}}],
        "has_more": false,
        "next_cursor": null
    }"#;
    let resp = query_response(json);
    assert_eq!(resp.results.len(), 1);
    assert_eq!(resp.results[0].id, "page-1");
    assert_eq!(resp.results[0].properties.property_text("Name"), "Task");
}

#[test]
fn test_tsv_output_format() {
    let json = r#"{
        "results": [{
            "id": "p1",
            "properties": {
                "Name": {"type": "title", "title": [{"plain_text": "Task A"}]},
                "Status": {"type": "select", "select": {"name": "Done"}},
                "Date": {"type": "date", "date": {"start": "2026-03-16", "end": null}}
            }
        }],
        "has_more": false,
        "next_cursor": null
    }"#;
    let resp = query_response(json);
    let columns = resp.results[0].properties.sorted_names();
    assert_eq!(columns, vec!["Name", "Date", "Status"]);

    let header = format!("id\t{}", columns.join("\t"));
    assert_eq!(header, "id\tName\tDate\tStatus");

    let values: Vec<String> = columns
        .iter()
        .map(|col| resp.results[0].properties.property_text(col))
        .collect();
    let row = format!("{}\t{}", resp.results[0].id, values.join("\t"));
    assert_eq!(row, "p1\tTask A\t2026-03-16\tDone");
}

#[test]
fn test_property_text_tab_in_value() {
    let json = r#"{"Name": {"type": "title", "title": [{"plain_text": "hello\tworld"}]}}"#;
    let props = properties(json);
    assert_eq!(props.property_text("Name"), "hello world");
}

#[test]
fn test_sorted_names_title_first() {
    let json = r#"{
        "Status": {"type": "select", "select": null},
        "Name": {"type": "title", "title": []},
        "Date": {"type": "date", "date": null}
    }"#;
    let props = properties(json);
    assert_eq!(props.sorted_names(), vec!["Name", "Date", "Status"]);
}

#[test]
fn test_property_text_date_null() {
    let json = r#"{"Due": {"type": "date", "date": null}}"#;
    let props = properties(json);
    assert_eq!(props.property_text("Due"), "");
}

#[test]
fn test_property_text_status_null() {
    let json = r#"{"State": {"type": "status", "status": null}}"#;
    let props = properties(json);
    assert_eq!(props.property_text("State"), "");
}

#[test]
fn test_property_text_multi_select_empty() {
    let json = r#"{"Tags": {"type": "multi_select", "multi_select": []}}"#;
    let props = properties(json);
    assert_eq!(props.property_text("Tags"), "");
}

#[test]
fn test_property_text_newline_in_value() {
    let json = r#"{"Name": {"type": "title", "title": [{"plain_text": "line1\nline2"}]}}"#;
    let props = properties(json);
    assert_eq!(props.property_text("Name"), "line1 line2");
}

#[test]
fn sorted_names_orders_by_bytes_and_keeps_title_first() {
    let json = r#"{
        "b": {"type": "rich_text", "rich_text": []},
        "Zeta": {"type": "number", "number": 1},
        "Title": {"type": "title", "title": []},
        "a": {"type": "url", "url": null},
        "Äpfel": {"type": "checkbox", "checkbox": true}
    }"#;
    let props = properties(json);
    assert_eq!(props.sorted_names(), vec!["Title", "Zeta", "a", "b", "Äpfel"]);
}

#[test]
fn sorted_names_without_title() {
    let props = properties(r#"{"y": {"type": "url"}, "x": {"type": "email"}}"#);
    assert_eq!(props.sorted_names(), vec!["x", "y"]);
}

#[test]
fn property_text_replaces_carriage_returns() {
    let json = r#"{"N": {"type": "rich_text", "rich_text": [{"plain_text": "a\r\nb"}, {"other": 1}, {"plain_text": "\tc"}]}}"#;
    let props = properties(json);
    assert_eq!(props.property_text("N"), "a  b c");
}

#[test]
fn property_text_number_fraction_and_multi_select_gaps() {
    let props = properties(
        r#"{"F": {"type": "number", "number": 2.5},
            "M": {"type": "multi_select", "multi_select": [{"name": "A"}, {"x": 1}, {"name": "C"}]},
            "E": {"type": "email", "email": 7},
            "T": {"type": 5}}"#,
    );
    assert_eq!(props.property_text("F"), "2.5");
    assert_eq!(props.property_text("M"), "A, C");
    assert_eq!(props.property_text("E"), "");
    assert_eq!(props.property_text("T"), "");
}

#[test]
fn json_model_get_reads_members() {
    let v = to_json(&serde_json::from_str::<Value>(r#"{"a": {"b": "c"}, "n": 3}"#).unwrap());
    let inner = json_get_exec(&v, "a").unwrap();
    assert_eq!(get_str_exec(inner, "b").map(|s| s.as_str()), Some("c"));
    assert!(get_str_exec(&v, "n").is_none());
    assert!(json_get_exec(&v, "missing").is_none());
    assert!(json_get_exec(&JsonValue::Null, "a").is_none());
}

#[test]
fn sorted_names_lists_every_name_once_with_one_title() {
    let entry = |name: &str, kind: &str| {
        (
            name.to_string(),
            JsonValue::Object(vec![("type".to_string(), JsonValue::Str(kind.to_string()))]),
        )
    };
    let props = PageProperties::from_entries(vec![
        entry("c", "url"),
        entry("Name", "title"),
        entry("a", "email"),
        entry("b", "date"),
    ])
    .unwrap();
    let mut names = props.sorted_names();
    assert_eq!(names, vec!["Name", "a", "b", "c"]);
    names.sort();
    let mut keys: Vec<String> = props.entries().iter().map(|e| e.0.clone()).collect();
    keys.sort();
    assert_eq!(names, keys);
}

#[test]
fn sorted_names_keeps_only_the_last_of_two_titles() {
    let entry = |name: &str, kind: &str| {
        (
            name.to_string(),
            JsonValue::Object(vec![("type".to_string(), JsonValue::Str(kind.to_string()))]),
        )
    };
    let props =
        PageProperties::from_entries(vec![entry("First", "title"), entry("x", "url"), entry("Second", "title")])
            .unwrap();
    assert_eq!(props.sorted_names(), vec!["Second", "x"]);
}

#[test]
fn properties_refuse_a_repeated_name() {
    let entry = |name: &str| (name.to_string(), JsonValue::Null);
    assert!(PageProperties::from_entries(vec![entry("a"), entry("b"), entry("a")]).is_none());
    let props = PageProperties::from_entries(vec![entry("b"), entry("a")]).unwrap();
    assert_eq!(props.entries().len(), 2);
    assert_eq!(props.sorted_names(), vec!["a", "b"]);
}
