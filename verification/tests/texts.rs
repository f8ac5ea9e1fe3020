use editchain_history::chars::{
    is_white, join_with, replace, split_lines, squeeze, trimmed, trimmed_start,
};
use editchain_history::chrome::{
    row_classification, session_summary_count_title, ActivityKind, BundleKind, OutcomeKind,
    RelationKind,
};
use editchain_history::dates::format_date;
use editchain_history::json::Json;
use editchain_history::markdown::{render_markdown_inline, MdInline};
use editchain_history::payload::{
    concise_tool_text, decoded_tool_payload_text, display_summary, first_tool_payload_text,
    nested_payload, recovery_text, summary_payload, summary_source, tool_payload_text, toolish_row,
};
use editchain_history::plain_text::{first_plain_line, markdown_plain_inline, markdown_plain_line};
use editchain_history::summary::{render_markdown_line, MdLineKind};

fn chars(text: &str) -> Vec<char> {
    text.chars().collect()
}

fn text(chars: Vec<char>) -> String {
    chars.into_iter().collect()
}

fn json(text: &str) -> Json {
    Json::parse(text).unwrap()
}

#[test]
fn white_space_is_squeezed_and_trimmed() {
    assert_eq!(text(squeeze(&chars("  a \t b\n"))), "a b");
    assert_eq!(text(trimmed(&chars("  a b  "))), "a b");
    assert_eq!(text(trimmed_start(&chars("  a "))), "a ");
    assert!(is_white('\u{a0}'));
    assert!(!is_white('x'));
    let lines: Vec<String> = split_lines(&chars("a\r\nb\nc")).into_iter().map(text).collect();
    assert_eq!(lines.len(), 3);
    assert_eq!(
        text(join_with(&vec![chars("a"), chars("b")], &chars(" · "))),
        "a · b"
    );
    assert_eq!(text(replace(&chars("a__b__"), &chars("__"), &chars("-"))), "a-b-");
}

#[test]
fn dates_cross_years_and_leap_days() {
    assert_eq!(format_date(951_782_400_000), "Feb 29, 2000 12:00 AM");
    assert_eq!(format_date(951_868_800_000), "Mar 1, 2000 12:00 AM");
    assert_eq!(format_date(1_735_689_599_000), "Dec 31, 2024 11:59 PM");
    assert_eq!(format_date(1), "Jan 1, 1970 12:00 AM");
}

#[test]
fn wire_names_are_read() {
    assert_eq!(
        RelationKind::from_wire("subagent"),
        Some(RelationKind::Subagent)
    );
    assert_eq!(RelationKind::from_wire("other"), None);
    assert_eq!(
        ActivityKind::from_wire("source_control"),
        Some(ActivityKind::SourceControl)
    );
    assert_eq!(OutcomeKind::from_wire("failure"), Some(OutcomeKind::Failure));
    assert_eq!(
        BundleKind::from_wire("plan-repeat"),
        Some(BundleKind::PlanRepeat)
    );
    assert_eq!(
        session_summary_count_title(87),
        "87 entries in this session"
    );
    assert_eq!(
        row_classification(&json("{}")).label,
        "other",
        "a row that says nothing"
    );
}

#[test]
fn images_need_their_mark_and_tasks_their_space() {
    assert_eq!(markdown_plain_inline("![alt](x)"), "alt");
    assert_eq!(markdown_plain_inline("[alt](x)"), "alt");
    assert_eq!(
        render_markdown_inline("![alt](x)", 0),
        vec![MdInline::Image {
            label: vec![MdInline::Text("alt".to_string())],
            target: "x".to_string()
        }]
    );
    assert_eq!(
        render_markdown_line("- [X] done").kind,
        MdLineKind::Task { done: true }
    );
    assert_eq!(render_markdown_line("-[x] done").kind, MdLineKind::Plain);
    assert_eq!(markdown_plain_line("## Two"), "Two");
    assert_eq!(first_plain_line("\n \n**a**\nb"), Some("a".to_string()));
    assert_eq!(first_plain_line(" "), None);
}

#[test]
fn tool_payloads_are_read_for_their_text() {
    let row = json(r#"{"kind": "tool", "record_role": "result", "summary": "s"}"#);
    assert!(toolish_row(&row));
    assert!(!toolish_row(&json(
        r#"{"kind": "message", "record_role": "narrative", "activity_kind": "conversation"}"#
    )));
    assert_eq!(summary_source(&row), "s");
    assert_eq!(summary_source(&json("{}")), "(no summary)");
    assert_eq!(
        first_tool_payload_text(&json(r#"{"a": 1, "output": "read me"}"#)),
        "read me"
    );
    assert_eq!(
        decoded_tool_payload_text(r#"{"text": "did thing"}"#),
        "did thing"
    );
    let parsed = json(r#""{\"text\": \"inner\"}""#);
    assert_eq!(
        nested_payload(Some(&parsed)),
        Some(r#"{"text": "inner"}"#.to_string())
    );
    let inner = json(r#"{"text": "inner"}"#);
    assert_eq!(
        tool_payload_text("ignored", Some(&parsed), Some(&inner)),
        "inner"
    );
    assert_eq!(
        decoded_tool_payload_text(r#""{\"text\": \"inner\"}""#),
        "inner"
    );
    assert_eq!(display_summary(&row, r#"{"text": "x"}"#, "x"), "x");
    assert_eq!(summary_payload("plain"), "plain");
    assert_eq!(concise_tool_text("just words"), "just words");
    assert_eq!(recovery_text(r#"{"text": "kept", "more": "#), "kept");
    assert_eq!(recovery_text(r#"{"text": "a\nb", "x"#), "a\nb");
    assert_eq!(recovery_text("no keys here"), "");
}
