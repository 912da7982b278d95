use notch::sanitize::{sanitize, sanitize_checked};

#[test]
fn test_empty_block_to_blank_line() {
    assert_eq!(sanitize("text<empty-block/>more"), "text\n\nmore");
}

#[test]
fn test_color_attribute_removed() {
    assert_eq!(sanitize("## Title {color=\"gray_bg\"}"), "## Title");
}

#[test]
fn test_toggle_attribute_removed() {
    assert_eq!(sanitize("## Title {toggle=\"true\"}"), "## Title");
}

#[test]
fn test_span_color_to_text() {
    assert_eq!(
        sanitize("<span color=\"red\">important</span>"),
        "important"
    );
}

#[test]
fn test_br_to_newline() {
    assert_eq!(sanitize("line1<br>line2"), "line1\nline2");
}

#[test]
fn test_br_self_closing_to_newline() {
    assert_eq!(sanitize("line1<br/>line2"), "line1\nline2");
}

#[test]
fn test_divider_to_hr() {
    assert_eq!(sanitize("<divider/>"), "---");
}

#[test]
fn test_mention_page_to_link() {
    assert_eq!(
        sanitize("<mention-page url=\"https://www.notion.so/abc123\"/>"),
        "[Notion page](https://www.notion.so/abc123)"
    );
}

#[test]
fn test_mention_user_to_at() {
    assert_eq!(sanitize("<mention-user url=\"user://abc-123\"/>"), "@user");
}

#[test]
fn test_file_to_attachment() {
    assert_eq!(
        sanitize("<file src=\"file://doc.pdf\"></file>"),
        "[attachment]"
    );
}

#[test]
fn test_image_url_signature_stripped() {
    let input = "![](https://prod-files-secure.s3.us-west-2.amazonaws.com/img.png?X-Amz-Algorithm=AWS4-HMAC-SHA256&X-Amz-Credential=AKIA)";
    let expected = "![](https://prod-files-secure.s3.us-west-2.amazonaws.com/img.png)";
    assert_eq!(sanitize(input), expected);
}

#[test]
fn test_basic_table_conversion() {
    let input = "<table>\n<tr>\n<td>A</td>\n<td>B</td>\n</tr>\n<tr>\n<td>1</td>\n<td>2</td>\n</tr>\n</table>";
    let result = sanitize(input);
    assert!(result.contains("| A | B |"));
    assert!(result.contains("| --- | --- |"));
    assert!(result.contains("| 1 | 2 |"));
}

#[test]
fn test_table_cell_pipe_escaped() {
    let input = "<table>\n<tr>\n<td>H</td>\n</tr>\n<tr>\n<td>a|b</td>\n</tr>\n</table>";
    let result = sanitize(input);
    assert!(result.contains(r"a\|b"));
}

#[test]
fn test_table_cell_br_removed() {
    let input = "<table>\n<tr>\n<td>H</td>\n</tr>\n<tr>\n<td>a<br>b</td>\n</tr>\n</table>";
    let result = sanitize(input);
    assert!(result.contains("a b"));
}

#[test]
fn test_table_cell_span_removed() {
    let input = "<table>\n<tr>\n<td>H</td>\n</tr>\n<tr>\n<td><span color=\"red\">x</span></td>\n</tr>\n</table>";
    let result = sanitize(input);
    assert!(result.contains("| x |"));
}

#[test]
fn test_table_colgroup_removed() {
    let input = "<table>\n<colgroup>\n<col>\n<col>\n</colgroup>\n<tr>\n<td>A</td>\n<td>B</td>\n</tr>\n</table>";
    let result = sanitize(input);
    assert!(result.contains("| A | B |"));
    assert!(!result.contains("colgroup"));
}

#[test]
fn test_table_cell_attribute_removed() {
    let input = "<table>\n<tr>\n<td color=\"yellow_bg\">text</td>\n</tr>\n</table>";
    let result = sanitize(input);
    assert!(result.contains("| text |"));
}

#[test]
fn test_empty_table() {
    let result = sanitize("<table>\n</table>");
    assert!(!result.contains("table"));
    assert!(result.trim().is_empty());
}

#[test]
fn test_single_column_table() {
    let input = "<table>\n<tr>\n<td>H</td>\n</tr>\n<tr>\n<td>V</td>\n</tr>\n</table>";
    let result = sanitize(input);
    assert!(result.contains("| H |"));
    assert!(result.contains("| --- |"));
    assert!(result.contains("| V |"));
}

#[test]
fn test_code_block_preserved() {
    let input = "before\n```\n{color=\"red\"}\n<empty-block/>\n```\nafter";
    let result = sanitize(input);
    assert!(result.contains("{color=\"red\"}"));
    assert!(result.contains("<empty-block/>"));
}

#[test]
fn test_inline_code_preserved() {
    let input = "use `<empty-block/>` tag";
    let result = sanitize(input);
    assert!(result.contains("`<empty-block/>`"));
}

#[test]
fn test_consecutive_blank_lines_normalized() {
    assert_eq!(sanitize("a\n\n\n\n\nb"), "a\n\n\nb");
}

#[test]
fn test_normal_markdown_passthrough() {
    let input = "# Title\n\n- list\n\n**bold**";
    assert_eq!(sanitize(input), input);
}

#[test]
fn test_malformed_tag_survives() {
    let input = "<span color=\"red\">no close";
    let result = sanitize(input);
    assert!(result.contains("no close"));
}

#[test]
fn test_composite_pattern() {
    let input: String = [
        "## Section {color=\"gray_bg\"}\n",
        "<mention-page url=\"https://notion.so/page1\"/> \n",
        "<span color=\"red\">warning</span><br>",
        "<table>\n<tr>\n<td>Col</td>\n</tr>\n<tr>\n<td>val</td>\n</tr>\n</table>\n",
        "![](https://s3.amazonaws.com/img.png?X-Amz-Algorithm=test)",
        "<empty-block/>"
    ]
    .concat();
    let result = sanitize(&input);
    assert!(!result.contains("{color="));
    assert!(result.contains("[Notion page](https://notion.so/page1)"));
    assert!(result.contains("warning"));
    assert!(!result.contains("<span"));
    assert!(result.contains("| Col |"));
    assert!(!result.contains("X-Amz-Algorithm"));
    assert!(!result.contains("<empty-block/>"));
}

#[test]
fn test_details_summary_to_text() {
    assert_eq!(
        sanitize("<details><summary>先週</summary>内容</details>"),
        "**先週**\n\n内容"
    );
}

#[test]
fn test_details_no_summary() {
    assert_eq!(sanitize("<details>中身だけ</details>"), "中身だけ");
}

#[test]
fn test_nested_details() {
    let input =
        "<details><summary>外</summary><details><summary>内</summary>X</details></details>";
    let result = sanitize(input);
    assert!(result.contains("**外**"));
    assert!(result.contains("**内**"));
    assert!(result.contains("X"));
    assert!(!result.contains("<details"));
}

#[test]
fn test_details_multiline() {
    let input = "<details>\n<summary>タイトル</summary>\n\n- item1\n- item2\n\n</details>";
    let result = sanitize(input);
    assert!(result.contains("**タイトル**"));
    assert!(result.contains("- item1"));
    assert!(result.contains("- item2"));
    assert!(!result.contains("<details"));
}

#[test]
fn test_callout_with_icon() {
    assert_eq!(
        sanitize("<callout icon=\"💡\">注意点</callout>"),
        "💡 注意点"
    );
}

#[test]
fn test_callout_no_icon() {
    assert_eq!(sanitize("<callout>注意点</callout>"), "注意点");
}

#[test]
fn test_synced_block_stripped() {
    assert_eq!(
        sanitize("<synced-block>共有コンテンツ</synced-block>"),
        "共有コンテンツ"
    );
}

#[test]
fn test_equation_wrapped() {
    assert_eq!(
        sanitize("<equation>x^2 + y^2 = z^2</equation>"),
        "$x^2 + y^2 = z^2$"
    );
}

#[test]
fn test_column_list_separated() {
    let input = "<column-list><column>左</column><column>右</column></column-list>";
    assert_eq!(sanitize(input), "左\n\n---\n\n右");
}

#[test]
fn test_checkbox_checked() {
    assert_eq!(sanitize("<checkbox checked=\"true\"/>タスク"), "[x] タスク");
}

#[test]
fn test_checkbox_unchecked() {
    assert_eq!(
        sanitize("<checkbox checked=\"false\"/>未完了"),
        "[ ] 未完了"
    );
}

#[test]
fn test_bookmark_to_link() {
    assert_eq!(
        sanitize("<bookmark url=\"https://example.com\">参考</bookmark>"),
        "[参考](https://example.com)"
    );
}

#[test]
fn test_bookmark_self_closing() {
    assert_eq!(
        sanitize("<bookmark url=\"https://example.com\"/>"),
        "https://example.com"
    );
}

#[test]
fn test_mention_date() {
    assert_eq!(
        sanitize("<mention-date start=\"2026-03-14\"/>"),
        "2026-03-14"
    );
}

#[test]
fn test_mention_date_range() {
    assert_eq!(
        sanitize("<mention-date start=\"2026-03-14\" end=\"2026-03-20\"/>"),
        "2026-03-14 → 2026-03-20"
    );
}

#[test]
fn test_code_block_preserves_v2_tags() {
    let input = "```\n<checkbox checked=\"true\"/>\n<callout icon=\"💡\">test</callout>\n```";
    let result = sanitize(input);
    assert!(result.contains("<checkbox"));
    assert!(result.contains("<callout"));
}

#[test]
fn test_details_with_table() {
    let input =
        "<details><summary>T</summary>\n<table>\n<tr>\n<td>A</td>\n</tr>\n</table>\n</details>";
    let result = sanitize(input);
    assert!(result.contains("**T**"));
    assert!(result.contains("| A |"));
    assert!(!result.contains("<details"));
    assert!(!result.contains("<table"));
}

#[test]
fn test_v1_v2_composite() {
    let input: String = [
        "## Section {color=\"gray_bg\"}\n",
        "<details><summary>詳細</summary>",
        "<callout icon=\"💡\">重要</callout>",
        "</details>\n",
        "<checkbox checked=\"true\"/>タスク\n",
        "<equation>E=mc^2</equation>\n",
        "<mention-page url=\"https://notion.so/page1\"/>\n",
        "<bookmark url=\"https://example.com\">リンク</bookmark>"
    ]
    .concat();
    let result = sanitize(&input);
    assert!(!result.contains("{color="));
    assert!(result.contains("**詳細**"));
    assert!(result.contains("💡 重要"));
    assert!(result.contains("[x] タスク"));
    assert!(result.contains("$E=mc^2$"));
    assert!(result.contains("[Notion page](https://notion.so/page1)"));
    assert!(result.contains("[リンク](https://example.com)"));
    assert!(!result.contains("<details"));
    assert!(!result.contains("<callout"));
    assert!(!result.contains("<checkbox"));
    assert!(!result.contains("<equation"));
    assert!(!result.contains("<bookmark"));
}


#[test]
fn sanitize_checked_agrees_with_sanitize_on_ordinary_text() {
    let input = "## Title {color=\"red\"}\n\n\n\n\nbody `<br>` <br>end";
    assert_eq!(sanitize_checked(input), Some(sanitize(input)));
    assert_eq!(sanitize_checked("<details>\u{e9}</details>"), Some("\u{e9}".to_string()));
}

#[test]
fn sanitize_checked_refuses_details_closed_inside_its_opening_tag() {
    assert_eq!(sanitize_checked("<details</details>x</details>"), None);
}

#[test]
fn sanitize_checked_refuses_multibyte_character_after_details_name() {
    assert_eq!(sanitize_checked("<details\u{e9}>a</details>"), None);
}

#[test]
fn sanitize_checked_refuses_summary_closed_before_opened() {
    assert_eq!(sanitize_checked("<details></summary><summary></details>"), None);
}

#[test]
fn sanitize_checked_refuses_equation_without_content_start() {
    assert_eq!(sanitize_checked("<equation</equation>"), None);
}

#[test]
fn sanitize_checked_leaves_code_alone() {
    assert_eq!(sanitize_checked("`<equation</equation>`"), Some("`<equation</equation>`".to_string()));
}

#[test]
fn curly_stripping_keeps_leading_empty_lines() {
    assert_eq!(sanitize("\n# T {a=1}"), "\n# T");
    assert_eq!(sanitize("\n{"), "\n{");
    assert_eq!(sanitize("{a=1}\nfoo"), "\nfoo");
}

#[test]
fn curly_stripping_after_code_fence_keeps_line_break() {
    assert_eq!(
        sanitize("```\ncode\n```\n## T {color=\"red\"}"),
        "```\ncode\n```\n## T"
    );
}

#[test]
fn blank_line_runs_shrink_to_three_newlines_and_stay_so() {
    let once = sanitize("a\n\n\n\n\n\nb\n\nc\n\n\n\nd");
    assert_eq!(once, "a\n\n\nb\n\nc\n\n\nd");
    assert_eq!(sanitize(&once), once);
}

#[test]
fn plain_markdown_with_code_and_images_passes_through() {
    let input = "# Title\n\nText with `code` and ![img](https://example.com/a.png).\n\n```\nfence\n```\nend";
    assert_eq!(sanitize(input), input);
}

#[test]
fn first_table_converted_and_unclosed_table_kept() {
    assert_eq!(
        sanitize("pre<table><tr><td>a</td></tr></table>post<table>rest"),
        "pre| a |\n| --- |post<table>rest"
    );
    assert_eq!(sanitize("x<table></table>y"), "xy");
}

#[test]
fn first_column_list_converted_and_unclosed_list_kept() {
    assert_eq!(
        sanitize("x<column-list><column>A</column>gap<column>B</column></column-list>y<column-list>z"),
        "xA\n\n---\n\nBy<column-list>z"
    );
}

#[test]
fn code_spans_and_fences_are_pieces_of_their_own() {
    assert_eq!(
        sanitize("a `<br>` b ```\n<br>\n``` c<br>d ` lone"),
        "a `<br>` b ```\n<br>\n``` c\nd ` lone"
    );
    assert_eq!(sanitize("x ```<br>"), "x ```<br>");
}
