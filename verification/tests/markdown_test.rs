use notch::markdown::{format_output, MAX_OUTPUT_BYTES};

#[test]
fn test_format_with_title() {
    let result = format_output("Test Page", "Hello world", false);
    assert_eq!(result.stdout, "# Test Page\n\nHello world");
    assert!(
        result.warnings.is_empty(),
        "expected no warnings, got: {:?}",
        result.warnings
    );
}

#[test]
fn test_format_empty_title() {
    let result = format_output("", "Hello world", false);
    assert_eq!(result.stdout, "Hello world");
    assert!(
        result.warnings.is_empty(),
        "expected no warnings, got: {:?}",
        result.warnings
    );
}

#[test]
fn test_format_api_truncated_warning() {
    let result = format_output("Title", "body", true);
    assert_eq!(result.warnings.len(), 1);
    assert!(
        result.warnings[0].contains("truncated by Notion API"),
        "got: {}",
        result.warnings[0]
    );
}

#[test]
fn test_format_output_size_truncation() {
    let large = "a".repeat(200 * 1024);
    let result = format_output("", &large, false);
    assert!(result.stdout.len() <= MAX_OUTPUT_BYTES);
    assert!(result.warnings.iter().any(|w| w.contains("exceeded 100KB")));
}

#[test]
fn test_format_output_truncation_respects_utf8_boundary() {
    let padding = "a".repeat(MAX_OUTPUT_BYTES - 10);
    let input = format!("{padding}あいうえお");
    let result = format_output("", &input, false);
    assert!(result.stdout.len() <= MAX_OUTPUT_BYTES);
}

#[test]
fn test_sanitize_applies_to_body_only() {
    let result = format_output("Title {color=\"gray\"}", "<empty-block/>content", false);
    assert!(
        result.stdout.contains("{color=\"gray\"}"),
        "got: {}",
        result.stdout
    );
    assert!(
        !result.stdout.contains("<empty-block/>"),
        "got: {}",
        result.stdout
    );
}

#[test]
fn cut_keeps_the_last_character_that_fits() {
    let mut body = "a".repeat(MAX_OUTPUT_BYTES - 1);
    body.push('é');
    body.push('b');
    let result = format_output("", &body, false);
    assert_eq!(result.stdout.len(), MAX_OUTPUT_BYTES - 1);
    let mut exact = "a".repeat(MAX_OUTPUT_BYTES - 2);
    exact.push('é');
    exact.push('b');
    let result = format_output("", &exact, false);
    assert_eq!(result.stdout.len(), MAX_OUTPUT_BYTES);
    assert!(result.stdout.ends_with('é'));
}
