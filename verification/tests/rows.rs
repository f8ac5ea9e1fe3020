use editchain_history::chrome::{activity_bundle_kind, bundle_count_text, outcome_badge, promoted_kind, relation_badges, row_classification, row_semantic_chrome, session_meta_description, session_meta_values, show_work_unit_count, work_unit_count_text, work_unit_count_title, work_unit_of, work_unit_title, BadgeOptions, BundleKind, ChromeItem, PromotedKind, ViewMode};
use editchain_history::dates::format_date;
use editchain_history::json::Json;
use editchain_history::labels::{commit_cell_title, group_label_text, open_json_envelope, short_commit_id, short_id, subop_icon};
use editchain_history::markdown::{render_markdown_inline, MdInline};
use editchain_history::payload::display_summary_for_row;
use editchain_history::plain_text::{markdown_plain_inline, markdown_plain_line, markdown_plain_summary};
use editchain_history::row_spec::{ChainState, Disclosure, KindClass, RowContext, RowSpec, WorkUnitClass};
use editchain_history::summary::{git_summary_parts, plain_row_summary, MdLine, MdLineKind, RowSummary, Summary};
use std::collections::BTreeMap;

// Markup of the structured rows, as the page shows it.

fn esc(text: &str) -> String {
    let mut out = String::new();
    for c in text.chars() {
        match c {
            '&' => out.push_str("&amp;"),
            '<' => out.push_str("&lt;"),
            '>' => out.push_str("&gt;"),
            '"' => out.push_str("&quot;"),
            '\'' => out.push_str("&#39;"),
            other => out.push(other),
        }
    }
    out
}

fn render_inline_html(inline: &[MdInline]) -> String {
    let mut html = String::new();
    for token in inline {
        match token {
            MdInline::Text(text) => {
                html.push_str("<span class=\"md-text\">");
                html.push_str(&esc(text));
                html.push_str("</span>");
            }
            MdInline::Space => {
                html.push_str("<span class=\"md-space\" aria-hidden=\"true\">\u{00a0}</span>");
            }
            MdInline::Code(code) => {
                html.push_str("<code class=\"md-code\">");
                html.push_str(&esc(code));
                html.push_str("</code>");
            }
            MdInline::Strong(inner) => {
                html.push_str("<strong class=\"md-strong\">");
                html.push_str(&render_inline_html(inner));
                html.push_str("</strong>");
            }
            MdInline::Em(inner) => {
                html.push_str("<em class=\"md-em\">");
                html.push_str(&render_inline_html(inner));
                html.push_str("</em>");
            }
            MdInline::Strike(inner) => {
                html.push_str("<span class=\"md-strike\">");
                html.push_str(&render_inline_html(inner));
                html.push_str("</span>");
            }
            MdInline::Link { label, target } => {
                html.push_str("<span class=\"md-link\" title=\"");
                html.push_str(&esc(target));
                html.push_str("\">");
                html.push_str(&render_inline_html(label));
                html.push_str("</span>");
            }
            MdInline::Image { label, target } => {
                html.push_str("<span class=\"md-image\" title=\"");
                html.push_str(&esc(target));
                html.push_str("\"><span aria-hidden=\"true\">image · </span>");
                html.push_str(&render_inline_html(label));
                html.push_str("</span>");
            }
        }
    }
    html
}

fn render_line_html(line: &MdLine) -> String {
    match &line.kind {
        MdLineKind::Heading { level } => {
            format!(
                "<span class=\"md-line md-heading md-h{level}\">{}</span>",
                render_inline_html(&line.inline)
            )
        }
        MdLineKind::Task { done } => {
            format!(
                "<span class=\"md-line md-list md-task{}{}\"><span class=\"md-marker\" aria-hidden=\"true\">{}</span>{}</span>",
                if *done { " md-task-done" } else { "" },
                "",
                if *done { "\u{2713}" } else { "\u{25cb}" },
                render_inline_html(&line.inline)
            )
        }
        MdLineKind::Unordered => {
            format!(
                "<span class=\"md-line md-list\"><span class=\"md-marker\" aria-hidden=\"true\">\u{2022}</span>{}</span>",
                render_inline_html(&line.inline)
            )
        }
        MdLineKind::Ordered { marker } => {
            format!(
                "<span class=\"md-line md-list\"><span class=\"md-marker\" aria-hidden=\"true\">{}</span>{}</span>",
                esc(marker),
                render_inline_html(&line.inline)
            )
        }
        MdLineKind::Quote { callout } => {
            if let Some(callout) = callout {
                format!(
                    "<span class=\"md-line md-quote\"><span class=\"md-callout\">{}</span>{}</span>",
                    esc(callout),
                    render_inline_html(&line.inline)
                )
            } else {
                format!(
                    "<span class=\"md-line md-quote\"><span class=\"md-marker\" aria-hidden=\"true\">\u{203a}</span>{}</span>",
                    render_inline_html(&line.inline)
                )
            }
        }
        MdLineKind::Fence { language } => {
            let language = if language.is_empty() {
                "code"
            } else {
                language
            };
            format!(
                "<span class=\"md-line md-fence\"><span class=\"md-callout\">{}</span>{}</span>",
                esc(language),
                render_inline_html(&line.inline)
            )
        }
        MdLineKind::Plain => {
            format!(
                "<span class=\"md-line\">{}</span>",
                render_inline_html(&line.inline)
            )
        }
        MdLineKind::Empty => {
            format!(
                "<span class=\"md-line md-empty\">{}</span>",
                "Structured content"
            )
        }
    }
}

fn render_summary_html(summary: &Summary) -> String {
    let mut html = render_line_html(&summary.line);
    if summary.more > 0 {
        let more = format!(
            "<span class=\"md-more\" aria-hidden=\"true\">+{}{}</span>",
            summary.more,
            if summary.more == 1 { " line" } else { " lines" }
        );
        html.push_str(&more);
    }
    html
}

fn render_row_summary_html(row_summary: &RowSummary) -> String {
    let mut html = String::new();
    if let Some(content) = &row_summary.content {
        html.push_str("<span class=\"summary-text");
        if row_summary.git_prefix.is_some() {
            html.push_str(" git-summary-text");
        }
        html.push_str("\">");
        html.push_str(&render_summary_html(content));
        html.push_str("</span>");
    }
    html
}

fn render_tags_html(spec: &RowSpec) -> String {
    render_chrome_html(&spec.tags)
}

fn render_chrome_html(chrome: &[ChromeItem]) -> String {
    let mut html = String::new();
    for item in chrome {
        html.push_str("<span class=\"");
        html.push_str(&item.classes);
        html.push_str("\" title=\"");
        html.push_str(&esc(&item.title));
        html.push('"');
        if let Some(aria) = &item.aria_label {
            html.push_str(" aria-label=\"");
            html.push_str(&esc(aria));
            html.push('"');
        }
        html.push('>');
        html.push_str(&esc(&item.text));
        html.push_str("</span>");
    }
    html
}

fn render_chevron_html(disclosure: &Disclosure) -> String {
    format!(
        "<button type=\"button\" class=\"subop-chevron\" title=\"{0}\" aria-label=\"{0}\" aria-expanded=\"{1}\">{2}</button>",
        esc(&disclosure.label),
        disclosure.expanded,
        if disclosure.expanded { "\u{25be}" } else { "\u{25b8}" }
    )
}

fn render_activity_html(spec: &RowSpec) -> String {
    let mut content = format!(
        "<span class=\"activity-label\">{}</span>",
        esc(&spec.classification.label)
    );
    if let Some(disclosure) = &spec.disclosure {
        content.push_str(&render_chevron_html(disclosure));
    }
    content
}

fn render_content_html(spec: &RowSpec) -> String {
    if let Some(subop) = &spec.content.subop {
        let content = format!(
            "<span class=\"subop-icon codicon codicon-{}\" aria-hidden=\"true\"></span><span class=\"subop-summary\">{}</span>",
            subop.icon,
            render_summary_html(&subop.summary)
        );
        return content;
    }
    let top = spec.content.top.as_ref().expect("top-level row content");
    let wu_start = spec.content_flags.work_unit_block;
    let mut content = String::new();
    if let Some(row_summary) = &top.summary {
        content.push_str(&render_row_summary_html(row_summary));
    }
    if wu_start {
        let header = spec.work_unit_header.as_ref().expect("work-unit header");
        let mut ribbon = format!(
            "<span class=\"work-unit-ribbon-line\"><span class=\"work-unit-ribbon\" title=\"{}\">{}</span>",
            esc(&header.title),
            esc(&header.title)
        );
        ribbon.push_str("</span>");
        return if spec.content_flags.work_unit_title_only {
            ribbon
        } else {
            format!("{ribbon}<span class=\"work-unit-row-line\">{content}</span>")
        };
    }
    content
}

fn render_attrs(spec: &RowSpec) -> BTreeMap<String, String> {
    let mut attrs = BTreeMap::new();
    drop(attrs.insert("role".to_owned(), "row".to_owned()));
    drop(attrs.insert("tabindex".to_owned(), spec.aria.tabindex.to_string()));
    drop(attrs.insert(
        "aria-selected".to_owned(),
        spec.aria.aria_selected.to_string(),
    ));
    if let Some(expanded) = spec.aria.aria_expanded {
        drop(attrs.insert("aria-expanded".to_owned(), expanded.to_string()));
    }
    drop(attrs.insert("aria-label".to_owned(), spec.aria.aria_label.clone()));
    drop(attrs.insert("title".to_owned(), spec.aria.title.clone()));
    drop(attrs.insert(
        "data-base-aria-label".to_owned(),
        spec.aria.base_aria_label.clone(),
    ));
    drop(attrs.insert("data-key".to_owned(), spec.identity.node_key.clone()));
    drop(attrs.insert("data-row".to_owned(), spec.identity.abs_index.to_string()));
    drop(attrs.insert(
        "data-hierarchy-depth".to_owned(),
        spec.identity.hierarchy_depth.to_string(),
    ));
    drop(attrs.insert(
        "data-classification".to_owned(),
        spec.classification.label.clone(),
    ));
    if let Some(header) = &spec.work_unit_header {
        drop(attrs.insert("data-work-unit-id".to_owned(), header.id.clone()));
    }
    if let Some(count) = spec
        .session_summary
        .as_ref()
        .and_then(|summary| summary.count)
    {
        drop(attrs.insert("data-session-count".to_owned(), count.to_string()));
    }
    if let Some(bundle) = &spec.bundle {
        drop(attrs.insert(
            "data-activity-bundle".to_owned(),
            bundle.kind.as_str().to_owned(),
        ));
        if let Some(count) = bundle.member_count {
            drop(attrs.insert("data-bundle-count".to_owned(), count.to_string()));
        }
    }
    attrs
}

fn json(text: &str) -> Json {
    Json::parse(text).unwrap()
}

fn is_activity_bundle(row: &Json, view: ViewMode) -> bool {
    activity_bundle_kind(row, view).is_some()
}

fn is_execute_run_bundle(row: &Json, view: ViewMode) -> bool {
    activity_bundle_kind(row, view) == Some(BundleKind::ExecuteRun)
}

fn is_plan_repeat_bundle(row: &Json, view: ViewMode) -> bool {
    activity_bundle_kind(row, view) == Some(BundleKind::PlanRepeat)
}

fn is_open_json_eligible(row: &Json) -> bool {
    open_json_envelope(row).is_some()
}

// Rows as the service ships them.

fn base_row() -> Json {
    json(r#"{
        "op_id": null,
        "git_oid": null,
        "repository": null,
        "summary": "Agent turn with metadata",
        "timestamp_ms": 1768492799000,
        "group": "session:s1",
        "group_end": false,
        "node_key": "op:1",
        "parents": [],
        "is_submodule": false,
        "is_system": false,
        "author": "agent",
        "commit_id": "",
        "kind": "message",
        "record_role": "narrative",
        "activity_kind": "conversation",
        "visibility": "primary",
        "outcome": "unknown",
        "turn_id": "t1",
        "lane": 0,
        "above": [0],
        "below": [0],
        "transitions": [],
        "sub_ops": [],
        "is_subop": false
    }"#)
}

fn with(base: &Json, overrides: &[(&str, Json)]) -> Json {
    let mut fields = match base {
        Json::Object(fields) => fields.clone(),
        _ => panic!("fixture base is an object"),
    };
    for (key, value) in overrides {
        fields.retain(|(name, _)| name != key);
        fields.push((key.to_string(), value.clone()));
    }
    Json::Object(fields)
}

fn git_row() -> Json {
    json(r#"{
        "op_id": null,
        "git_oid": "git:abc123def4567890abcdef1234567890abcdef12",
        "repository": "9007199254740993",
        "summary": "feat: add **search** bar\n\nsecond line",
        "timestamp_ms": 1768492800000,
        "group": "repo:9007199254740993",
        "group_end": true,
        "node_key": "git:abc123def456",
        "parents": [],
        "is_submodule": false,
        "is_system": false,
        "author": "ambientlight",
        "commit_id": "git:abc123d",
        "kind": "git",
        "record_role": "artifact",
        "activity_kind": "source_control",
        "visibility": "primary",
        "outcome": "success",
        "turn_id": "",
        "lane": 1,
        "above": [0, 1],
        "below": [1],
        "transitions": [[0, 1]],
        "sub_ops": [],
        "is_subop": false
    }"#)
}

fn subop_row() -> Json {
    with(
        &base_row(),
        &[
            ("node_key", Json::from_text("node:1::sub:0")),
            ("op_id", Json::from_text("node:1::sub:0")),
            ("summary", Json::from_text("custom-title metadata")),
            ("kind", Json::from_text("custom-title")),
            ("subop_kind", Json::from_text("edit")),
            ("is_subop", Json::Bool(true)),
            ("above", json(r#"[0, 1]"#)),
            ("below", json(r#"[0, 1]"#)),
            ("timestamp_ms", json(r#"1768492800000"#)),
            ("author", Json::from_text("")),
        ],
    )
}

fn expandable_row() -> Json {
    with(
        &base_row(),
        &[
            ("node_key", Json::from_text("node:5")),
            ("summary", Json::from_text("Agent turn with metadata")),
            (
                "sub_ops",
                json(r#"[
                    { "op_id": "n::s0", "summary": "s0", "kind": "k" },
                    { "op_id": "n::s1", "summary": "s1", "kind": "k" }
                ]"#),
            ),
        ],
    )
}

fn bundle_row() -> Json {
    with(
        &base_row(),
        &[
            ("node_key", Json::from_text("bundle:exec1")),
            ("op_id", Json::from_text("node:bundle1")),
            ("summary", Json::from_text("tool result: execute run (2 steps)")),
            ("kind", Json::from_text("command")),
            ("record_role", Json::from_text("action")),
            ("activity_kind", Json::from_text("execute")),
            ("outcome", Json::from_text("success")),
            ("is_system", Json::Bool(true)),
            ("author", Json::from_text("")),
            ("commit_id", Json::from_text("bundle:exec1")),
            ("turn_id", Json::from_text("")),
            ("group", Json::from_text("session:s1")),
            ("timestamp_ms", json(r#"1768492800000"#)),
            (
                "activity_bundle",
                json(r#"{ "kind": "execute-run", "member_count": 2 }"#),
            ),
            (
                "sub_ops",
                json(r#"[
                    { "op_id": "n::s0", "summary": "s0", "kind": "tool" },
                    { "op_id": "n::s1", "summary": "s1", "kind": "tool" }
                ]"#),
            ),
        ],
    )
}

fn bundle_plan_row() -> Json {
    with(
        &bundle_row(),
        &[
            ("node_key", Json::from_text("bundle:plan1")),
            ("summary", Json::from_text("Repeated plan: same step plan")),
            ("kind", Json::from_text("reflection")),
            ("record_role", Json::from_text("narrative")),
            ("activity_kind", Json::from_text("plan")),
            ("outcome", Json::from_text("unknown")),
            ("is_system", Json::Bool(false)),
            ("author", Json::from_text("agent")),
            (
                "activity_bundle",
                json(r#"{ "kind": "plan-repeat", "member_count": 3 }"#),
            ),
            (
                "sub_ops",
                json(r#"[
                    { "op_id": "n::s0", "summary": "s0", "kind": "reflection" },
                    { "op_id": "n::s1", "summary": "s1", "kind": "reflection" },
                    { "op_id": "n::s2", "summary": "s2", "kind": "reflection" }
                ]"#),
            ),
        ],
    )
}

fn wu_start_row() -> Json {
    with(
        &base_row(),
        &[
            ("node_key", Json::from_text("wu:req1")),
            ("summary", Json::from_text("User request: make the search faster")),
            ("author", Json::from_text("human")),
            ("timestamp_ms", json(r#"1768492800000"#)),
            (
                "work_unit",
                json(r#"{
                    "id": "session:s1/turn:t1",
                    "title": "User request: make the search faster",
                    "is_start": true,
                    "is_end": false,
                    "count": 5
                }"#),
            ),
            (
                "session_meta",
                json(r#"{ "model_provider": "sglang_dsv4", "agent_nickname": "Harvey" }"#),
            ),
        ],
    )
}

fn wu_start_title_only_row() -> Json {
    with(
        &wu_start_row(),
        &[
            ("node_key", Json::from_text("wu:req2")),
            ("summary", Json::from_text("Implement retry with backoff")),
            ("turn_id", Json::from_text("t2")),
            (
                "work_unit",
                json(r#"{
                    "id": "session:s1/turn:t2",
                    "title": "Implement retry with backoff",
                    "is_start": true,
                    "is_end": false,
                    "count": 1
                }"#),
            ),
            ("session_meta", Json::Null),
        ],
    )
}

fn session_summary_row() -> Json {
    with(
        &base_row(),
        &[
            ("node_key", Json::from_text("wu:session-summary")),
            (
                "summary",
                Json::from_text("system last-prompt custom-title — 1 activity · 1 plan"),
            ),
            ("group", Json::from_text("session:s1")),
            ("kind", Json::from_text("work-group")),
            ("record_role", Json::from_text("action")),
            ("activity_kind", Json::from_text("work")),
            ("turn_id", Json::from_text("")),
            (
                "activity_bundle",
                json(r#"{ "kind": "work-group", "member_count": 1 }"#),
            ),
            (
                "sub_ops",
                json(r#"[{ "op_id": "n::meta", "summary": "system last-prompt custom-title", "kind": "import" }]"#),
            ),
            (
                "work_unit",
                json(r#"{
                    "id": "session:s1/turn:t9",
                    "title": "Initial user request",
                    "is_start": true,
                    "is_end": false,
                    "count": 4
                }"#),
            ),
            ("session_summary", json(r#"{ "count": 87 }"#)),
            ("session_meta", Json::Null),
        ],
    )
}

fn promoted_failure_row() -> Json {
    with(
        &base_row(),
        &[
            ("node_key", Json::from_text("wu:fail")),
            ("summary", Json::from_text("command failed with exit 1")),
            ("kind", Json::from_text("command")),
            ("record_role", Json::from_text("action")),
            ("activity_kind", Json::from_text("execute")),
            ("outcome", Json::from_text("failure")),
            ("promoted", Json::Bool(true)),
            (
                "work_unit",
                json(r#"{
                    "id": "u1",
                    "is_start": false,
                    "is_end": false,
                    "count": 0
                }"#),
            ),
            ("session_meta", Json::Null),
        ],
    )
}

fn session_meta_row() -> Json {
    with(
        &base_row(),
        &[
            ("node_key", Json::from_text("sess:1")),
            ("summary", Json::from_text("session boundary row")),
            (
                "session_meta",
                json(r#"{
                    "session_title": "q0",
                    "model_provider": "  sglang_dsv4  ",
                    "agent_nickname": "Harvey"
                }"#),
            ),
            ("turn_id", Json::from_text("")),
            ("op_id", Json::from_text("node:1")),
        ],
    )
}

#[test]
fn identity_helpers_match_production_values() {
    assert_eq!(short_id("90071992547409931234567890"), "931234567890");
    assert_eq!(short_id("abc123def456"), "abc123def456");
    assert_eq!(short_id(""), "");
    assert_eq!(
        group_label_text("repo:9007199254740993", None, None),
        "Git · repo 199254740993"
    );
    assert_eq!(
        group_label_text("session:session_abcdefghijklmnop", None, None),
        "Session efghijklmnop"
    );
    assert_eq!(group_label_text("ops", None, None), "EditChain ops");
    assert_eq!(
        group_label_text("session:opaque", Some("q0"), Some("Tesla")),
        "q0 · Tesla"
    );
    assert_eq!(
        group_label_text("session:opaque", Some("q0"), Some("q0")),
        "q0"
    );
}

#[test]
fn date_labels_are_deterministic_utc_and_match_the_en_us_contract() {
    assert_eq!(format_date(0), "");
    assert_eq!(format_date(1_768_492_800_000), "Jan 15, 2026 04:00 PM");
    assert_eq!(format_date(-86_400_000), "Dec 31, 1969 12:00 AM");
    assert_eq!(format_date(1_768_521_600_000), "Jan 16, 2026 12:00 AM");
    assert_eq!(format_date(1_768_516_440_000), "Jan 15, 2026 10:34 PM");
    assert_eq!(format_date(1_768_455_660_000), "Jan 15, 2026 05:41 AM");
}

#[test]
fn commit_and_id_labels_match_short_commit_id() {
    assert_eq!(
        short_commit_id(&git_row()),
        "git:abc123d",
        "git rows keep the abbreviated commit id"
    );
    assert_eq!(short_commit_id(&subop_row()), "ode:1::sub:0");
    assert_eq!(
        short_commit_id(&with(
            &base_row(),
            &[("turn_id", Json::from_text("turn:abcdefghijklmnop"))]
        )),
        "efghijklmnop"
    );
    assert_eq!(
        short_commit_id(&with(
            &base_row(),
            &[
                ("op_id", Json::from_text("node:1234567890abcdef")),
                ("commit_id", Json::from_text("")),
                ("turn_id", Json::from_text("")),
            ]
        )),
        "567890abcdef"
    );
    assert_eq!(commit_cell_title(&git_row()), "git:abc123d");
    assert_eq!(
        commit_cell_title(&with(&base_row(), &[("op_id", Json::from_text("node:1"))])),
        "node:1"
    );
    assert_eq!(
        commit_cell_title(&with(&base_row(), &[("op_id", Json::Null)])),
        ""
    );
}

#[test]
fn subop_icon_mapping_matches_codicon_names() {
    assert_eq!(subop_icon("edit"), "edit");
    assert_eq!(subop_icon("msg"), "comment");
    assert_eq!(subop_icon("tool_result"), "output");
    assert_eq!(subop_icon("meta"), "info");
    assert_eq!(subop_icon("future_kind"), "info");
}

#[test]
fn work_unit_titles_match_fallbacks() {
    let titled = with(
        &base_row(),
        &[
            ("activity_kind", Json::from_text("execute")),
            ("kind", Json::from_text("tool")),
            (
                "work_unit",
                json(r#"{
                    "id": "u",
                    "title": "Run the **integration** suite",
                    "is_start": true,
                    "count": 3
                }"#),
            ),
        ],
    );
    assert_eq!(
        work_unit_title(&titled, ViewMode::Activity),
        "Run the integration suite"
    );
    assert_eq!(
        work_unit_title(
            &with(
                &titled,
                &[(
                    "work_unit",
                    json(r#"{
                        "id": "u", "title": "", "is_start": true, "count": 3
                    }"#)
                )]
            ),
            ViewMode::Activity
        ),
        "Run"
    );
    assert_eq!(
        work_unit_title(
            &with(
                &titled,
                &[
                    ("activity_kind", Json::from_text("conversation")),
                    ("kind", Json::from_text("message")),
                    (
                        "work_unit",
                        json(r#"{ "id": "u", "title": "", "is_start": true, "count": 3 }"#)
                    ),
                ]
            ),
            ViewMode::Activity
        ),
        "Request"
    );
    assert_eq!(
        work_unit_title(
            &with(
                &titled,
                &[
                    ("activity_kind", Json::from_text("future_kind")),
                    ("kind", Json::from_text("reflection")),
                    ("group", Json::from_text("repo:9007199254740993")),
                    (
                        "work_unit",
                        json(r#"{ "id": "u", "title": "", "is_start": true, "count": 3 }"#)
                    ),
                ]
            ),
            ViewMode::Activity
        ),
        "Git · repo 199254740993"
    );
}

#[test]
fn work_unit_count_labels_and_visibility() {
    assert_eq!(work_unit_count_text(1), "1 entry");
    assert_eq!(work_unit_count_text(5), "5 entries");
    assert_eq!(
        work_unit_count_title(5),
        "5 entries grouped in this activity"
    );
    assert!(show_work_unit_count(&base_row(), Some(5)));
    assert!(!show_work_unit_count(
        &with(
            &base_row(),
            &[("activity_kind", Json::from_text("source_control"))]
        ),
        Some(5)
    ));
    assert!(!show_work_unit_count(&base_row(), Some(1)));
}

#[test]
fn bundle_count_text_matches_the_dto_count_contract() {
    assert_eq!(
        bundle_count_text(&bundle_row(), ViewMode::Activity),
        "2 commands"
    );
    assert_eq!(
        bundle_count_text(
            &with(
                &bundle_row(),
                &[(
                    "activity_bundle",
                    json(r#"{ "kind": "execute-run", "member_count": 1 }"#)
                )]
            ),
            ViewMode::Activity
        ),
        "1 command"
    );
    assert_eq!(
        bundle_count_text(&bundle_plan_row(), ViewMode::Activity),
        "3 updates"
    );
    assert_eq!(
        bundle_count_text(
            &with(
                &bundle_plan_row(),
                &[(
                    "activity_bundle",
                    json(r#"{ "kind": "plan-repeat", "member_count": 1 }"#)
                )]
            ),
            ViewMode::Activity
        ),
        "1 update"
    );
    assert_eq!(
        bundle_count_text(
            &with(&bundle_row(), &[("kind", Json::from_text("tool"))]),
            ViewMode::Activity
        ),
        "2 tool steps"
    );
    assert_eq!(bundle_count_text(&base_row(), ViewMode::Activity), "");
    // Raw view never bundles.
    assert_eq!(bundle_count_text(&bundle_row(), ViewMode::Raw), "");
}

#[test]
fn work_group_and_nested_bundle_keep_two_independent_disclosures() {
    let work = with(
        &base_row(),
        &[
            ("kind", Json::from_text("work-group")),
            ("activity_kind", Json::from_text("work")),
            (
                "activity_bundle",
                json(r#"{ "kind": "work-group", "member_count": 4 }"#),
            ),
            (
                "sub_ops",
                json(r#"[
                    { "op_id": "1:0:2", "summary": "run tools", "kind": "command", "timestamp_ms": 1768492800000 }
                ]"#),
            ),
        ],
    );
    let work_spec =
        RowSpec::from_value(&work, &RowContext::for_row(ViewMode::Activity, 0, false));
    assert_eq!(work_spec.classification.label, "work");
    assert_eq!(
        work_spec.bundle.as_ref().map(|bundle| bundle.kind),
        Some(BundleKind::WorkGroup)
    );
    assert_eq!(
        work_spec
            .bundle
            .as_ref()
            .map(|bundle| bundle.count_text.as_str()),
        Some("4 activities")
    );
    assert!(work_spec.state.expandable);
    assert_eq!(work_spec.expanded(), Some(false));
    assert_eq!(
        render_attrs(&work_spec)
            .get("data-activity-bundle")
            .map(String::as_str),
        Some("work-group")
    );

    let nested = with(
        &bundle_row(),
        &[
            ("is_subop", Json::Bool(true)),
            ("hierarchy_depth", json(r#"1"#)),
            ("parent_row", json(r#"0"#)),
        ],
    );
    let nested_spec =
        RowSpec::from_value(&nested, &RowContext::for_row(ViewMode::Activity, 1, false));
    assert!(nested_spec.identity.is_subop);
    assert_eq!(nested_spec.identity.hierarchy_depth, 1);
    assert!(nested_spec.state.expandable);
    assert_eq!(nested_spec.expanded(), Some(false));
    assert!(nested_spec.classes().contains("row-activity-bundle"));
    assert!(nested_spec.classes().contains("row-expandable"));
    assert!(nested_spec.disclosure.is_some());
    let nested_activity = render_activity_html(&nested_spec);
    assert!(nested_activity.starts_with("<span class=\"activity-label\">tooluse</span>"));
    assert!(nested_activity.contains("class=\"subop-chevron\""));
    let nested_html = render_tags_html(&nested_spec);
    assert!(!nested_html.contains("class=\"subop-chevron\""));
    assert!(nested_html.contains("class=\"bundle-count\""));
}

#[test]
fn chrome_items_match_exact_span_contracts() {
    let rel = relation_badges(&with(
        &base_row(),
        &[("parent_relations", json(r#"[{ "kind": "subagent" }]"#))],
    ));
    assert_eq!(
        render_chrome_html(&rel),
        "<span class=\"rel-badge rel-subagent\" title=\"Starts a subagent branch\" aria-label=\"Starts a subagent branch\">↳ subagent</span>"
    );
    let all = relation_badges(&with(
        &base_row(),
        &[(
            "parent_relations",
            json(r#"[
                { "kind": "subagent" },
                { "kind": "reconnect" },
                { "kind": "fork" },
                { "kind": "unknown-kind" }
            ]"#),
        )],
    ));
    assert_eq!(
        render_chrome_html(&all),
        "<span class=\"rel-badge rel-subagent\" title=\"Starts a subagent branch\" aria-label=\"Starts a subagent branch\">↳ subagent</span>\
         <span class=\"rel-badge rel-reconnect\" title=\"Completion returns into the subagent branch\" aria-label=\"Completion returns into the subagent branch\">↩ return</span>\
         <span class=\"rel-badge rel-fork\" title=\"Branches off the target row at a fork boundary\" aria-label=\"Branches off the target row at a fork boundary\">⇉ fork</span>"
    );
    let dup = relation_badges(&with(
        &base_row(),
        &[(
            "parent_relations",
            json(r#"[{ "kind": "fork" }, { "kind": "fork" }]"#),
        )],
    ));
    assert_eq!(dup.len(), 1);
}

#[test]
fn activity_column_classifies_every_real_row_with_stable_fallbacks() {
    let cases = [
        ("conversation", "agent"),
        ("plan", "plan"),
        ("explore", "explore"),
        ("execute", "tooluse"),
        ("change", "change"),
        ("verify", "verify"),
        ("diagnose", "diagnose"),
        ("coordinate", "coordinate"),
        ("source_control", "git"),
        ("external", "external"),
        ("system", "system"),
    ];
    for (wire, label) in cases {
        let classification =
            row_classification(&with(&base_row(), &[("activity_kind", Json::from_text(wire))]));
        assert_eq!(classification.label, label, "{wire} label");
        assert_eq!(classification.source, "activity_kind", "{wire} source");
        assert_eq!(classification.title, format!("Activity: {wire}"));
    }

    let user = row_classification(&with(&base_row(), &[("author", Json::from_text("human"))]));
    assert_eq!(user.label, "user");
    assert_eq!(user.source, "activity_kind");
    assert_eq!(user.title, "Activity: conversation");

    let git = row_classification(&with(
        &base_row(),
        &[
            ("kind", Json::from_text("message")),
            ("activity_kind", Json::from_text("unknown")),
            ("git_oid", Json::from_text("abc123")),
        ],
    ));
    assert_eq!(git.label, "git", "Git identity is authoritative");
    assert_eq!(git.source, "git_oid");

    let system = row_classification(&with(
        &base_row(),
        &[
            ("activity_kind", Json::from_text("unknown")),
            ("kind", Json::from_text("unknown")),
            ("is_system", Json::Bool(true)),
        ],
    ));
    assert_eq!(system.label, "system");
    assert_eq!(system.source, "is_system");

    let kind = row_classification(&with(
        &base_row(),
        &[
            ("activity_kind", Json::from_text("unknown")),
            ("kind", Json::from_text("tool_result")),
        ],
    ));
    assert_eq!(kind.label, "tool-result");
    assert_eq!(kind.source, "kind");

    let role = row_classification(&with(
        &base_row(),
        &[
            ("activity_kind", Json::from_text("unknown")),
            ("kind", Json::from_text("unknown")),
            ("record_role", Json::from_text("artifact")),
        ],
    ));
    assert_eq!(role.label, "artifact");
    assert_eq!(role.source, "record_role");

    let other = row_classification(&with(
        &base_row(),
        &[
            ("activity_kind", Json::from_text("unknown")),
            ("kind", Json::from_text("unknown")),
            ("record_role", Json::from_text("unknown")),
        ],
    ));
    assert_eq!(other.label, "other");
    assert!(!other.label.is_empty());
}

#[test]
fn session_scoped_boundary_uses_the_session_activity_name() {
    let row = session_summary_row();
    let spec = RowSpec::from_value(&row, &RowContext::for_row(ViewMode::Activity, 0, false));
    assert_eq!(spec.classification.label, "session");
    assert_eq!(spec.classification.source, "session_summary");
    assert_eq!(spec.classification.title, "Session summary");
    assert!(spec.classes().contains("row-session-summary"));
    assert_eq!(
        spec.work_unit.as_ref().map(|unit| unit.id.as_str()),
        Some("session:s1/turn:t9"),
        "the session marker does not replace the row's turn work unit"
    );
    assert_eq!(
        spec.work_unit_header
            .as_ref()
            .map(|header| (header.count_text.as_str(), header.count_title.as_str())),
        Some(("87 entries", "87 entries in this session"))
    );
    assert_eq!(
        spec.tags
            .iter()
            .find(|tag| tag.classes == "work-unit-count")
            .map(|tag| tag.text.as_str()),
        Some("87 entries")
    );
    assert_eq!(
        render_activity_html(&spec),
        "<span class=\"activity-label\">session</span><button type=\"button\" class=\"subop-chevron\" title=\"Expand 1 activity\" aria-label=\"Expand 1 activity\" aria-expanded=\"false\">▸</button>"
    );
    assert_eq!(
        render_attrs(&spec)
            .get("data-classification")
            .map(String::as_str),
        Some("session")
    );
    assert_eq!(
        render_attrs(&spec)
            .get("data-session-count")
            .map(String::as_str),
        Some("87")
    );

    let raw = RowSpec::from_value(&row, &RowContext::for_row(ViewMode::Raw, 0, false));
    assert_eq!(raw.classification.label, "work");
    assert_eq!(raw.classification.source, "activity_kind");
    assert!(raw.session_summary.is_none());

    let turn_start = RowSpec::from_value(
        &wu_start_row(),
        &RowContext::for_row(ViewMode::Activity, 0, false),
    );
    assert_eq!(turn_start.classification.label, "user");
}

#[test]
fn chrome_suppressions_match_the_frozen_badge_options() {
    assert!(outcome_badge(
        &with(&base_row(), &[("outcome", Json::from_text("success"))]),
        BadgeOptions::default()
    )
    .is_none());
    let warning = outcome_badge(
        &with(&base_row(), &[("outcome", Json::from_text("warning"))]),
        BadgeOptions::default(),
    )
    .expect("warning badge");
    assert_eq!(
        render_chrome_html(&[warning]),
        "<span class=\"out-badge outcome-warning\" title=\"outcome: warning\" aria-label=\"outcome: warn\">warn</span>"
    );
    let failure = outcome_badge(
        &with(&base_row(), &[("outcome", Json::from_text("failure"))]),
        BadgeOptions::default(),
    )
    .expect("failure badge");
    assert_eq!(
        render_chrome_html(&[failure]),
        "<span class=\"out-badge outcome-failure\" title=\"outcome: failure\" aria-label=\"outcome: failed\">✕</span>"
    );
    let cancelled = outcome_badge(
        &with(&base_row(), &[("outcome", Json::from_text("cancelled"))]),
        BadgeOptions::default(),
    )
    .expect("cancelled badge");
    assert_eq!(
        render_chrome_html(&[cancelled]),
        "<span class=\"out-badge outcome-neutral\" title=\"outcome: cancelled\" aria-label=\"outcome: cancelled\">cancelled</span>"
    );
    assert!(outcome_badge(
        &with(&base_row(), &[("outcome", Json::from_text("unknown"))]),
        BadgeOptions::default()
    )
    .is_none());
}

#[test]
fn semantic_chrome_order_and_bundle_priority_match_production() {
    let relations = row_semantic_chrome(
        &with(
            &base_row(),
            &[
                ("parent_relations", json(r#"[{ "kind": "fork" }]"#)),
                ("outcome", Json::from_text("unknown")),
            ],
        ),
        false,
        ViewMode::Activity,
        BadgeOptions::default(),
    );
    assert_eq!(relations.len(), 1);
    let relations_warning = row_semantic_chrome(
        &with(
            &base_row(),
            &[
                ("parent_relations", json(r#"[{ "kind": "fork" }]"#)),
                ("outcome", Json::from_text("warning")),
            ],
        ),
        false,
        ViewMode::Activity,
        BadgeOptions::default(),
    );
    assert_eq!(
        render_chrome_html(&relations_warning),
        "<span class=\"rel-badge rel-fork\" title=\"Branches off the target row at a fork boundary\" aria-label=\"Branches off the target row at a fork boundary\">⇉ fork</span>\
         <span class=\"out-badge outcome-warning\" title=\"outcome: warning\" aria-label=\"outcome: warn\">warn</span>"
    );
    let activity = row_semantic_chrome(
        &with(
            &base_row(),
            &[
                ("activity_kind", Json::from_text("plan")),
                ("outcome", Json::from_text("success")),
            ],
        ),
        false,
        ViewMode::Activity,
        BadgeOptions::default(),
    );
    assert!(
        activity.is_empty(),
        "activity lives in its own column and common success stays suppressed"
    );
    let bundle = row_semantic_chrome(
        &bundle_row(),
        true,
        ViewMode::Activity,
        BadgeOptions::default(),
    );
    assert_eq!(
        render_chrome_html(&bundle),
        "<span class=\"bundle-count\" title=\"2 commands, completed\">2 commands</span>\
         <span class=\"bundle-status bundle-status-success\" title=\"completed\" aria-label=\"completed\">✓</span>"
    );
    let bundle_unknown_outcome = row_semantic_chrome(
        &with(&bundle_row(), &[("outcome", Json::from_text("unknown"))]),
        true,
        ViewMode::Activity,
        BadgeOptions::default(),
    );
    assert_eq!(
        render_chrome_html(&bundle_unknown_outcome),
        "<span class=\"bundle-count\" title=\"2 commands\">2 commands</span>"
    );
}

#[test]
fn session_chips_trim_labels_and_describe_provenance() {
    let row = session_meta_row();
    let chips = session_meta_values(&row);
    assert_eq!(chips.len(), 2);
    let model = chips.first().expect("model chip");
    assert_eq!(model.class, "session-chip session-chip-model");
    assert_eq!(model.label, "sglang_dsv4");
    assert_eq!(model.title, "Model provider");
    let agent = chips.get(1).expect("agent chip");
    assert_eq!(agent.class, "session-chip session-chip-agent");
    assert_eq!(agent.label, "Harvey");
    assert_eq!(agent.title, "Agent");
    assert_eq!(
        session_meta_description(&row),
        "Model provider sglang_dsv4, Agent Harvey"
    );
    let partial = session_meta_values(&with(
        &base_row(),
        &[(
            "session_meta",
            json(r#"{ "model_provider": "   ", "agent_nickname": "Harvey" }"#),
        )],
    ));
    assert_eq!(partial.len(), 1);
    assert_eq!(partial.first().expect("agent chip").label, "Harvey");
    assert!(session_meta_values(&base_row()).is_empty());
}

#[test]
fn promoted_classes_match_the_rail_contract() {
    assert_eq!(
        promoted_kind(&promoted_failure_row(), ViewMode::Activity).expect("failure"),
        PromotedKind::Failure
    );
    assert_eq!(promoted_kind(&promoted_failure_row(), ViewMode::Raw), None);
    assert_eq!(
        promoted_kind(
            &with(
                &promoted_failure_row(),
                &[
                    ("promoted", Json::Bool(true)),
                    ("outcome", Json::from_text("unknown")),
                    ("activity_kind", Json::from_text("change")),
                ]
            ),
            ViewMode::Activity
        ),
        Some(PromotedKind::Change)
    );
    assert_eq!(
        promoted_kind(
            &with(
                &promoted_failure_row(),
                &[
                    ("promoted", Json::Bool(true)),
                    ("outcome", Json::from_text("unknown")),
                    ("activity_kind", Json::from_text("verify")),
                ]
            ),
            ViewMode::Activity
        ),
        Some(PromotedKind::Verify)
    );
    assert_eq!(
        promoted_kind(
            &with(
                &promoted_failure_row(),
                &[("promoted", Json::Bool(true)), ("outcome", Json::from_text("unknown")),]
            ),
            ViewMode::Activity
        ),
        Some(PromotedKind::Rail)
    );
    assert_eq!(
        PromotedKind::Failure.classes(),
        "row-promoted row-promoted-failure"
    );
    assert_eq!(
        PromotedKind::Change.classes(),
        "row-promoted row-promoted-change"
    );
    assert_eq!(
        PromotedKind::Verify.classes(),
        "row-promoted row-promoted-verify"
    );
    assert_eq!(
        PromotedKind::Rail.classes(),
        "row-promoted row-promoted-rail"
    );
}

#[test]
fn work_unit_classes_distinguish_start_and_end() {
    assert_eq!(
        work_unit_class_of(&wu_start_row()).map(WorkUnitClass::class),
        Some("row-work-unit-start")
    );
    assert_eq!(
        work_unit_class_of(&with(
            &base_row(),
            &[(
                "work_unit",
                json(r#"{ "id": "u", "is_start": false, "is_end": true, "count": 5 }"#)
            ),]
        ))
        .map(WorkUnitClass::class),
        Some("row-work-unit-end")
    );
    assert_eq!(work_unit_class_of(&base_row()), None);
}

fn work_unit_class_of(row: &Json) -> Option<WorkUnitClass> {
    let wu = work_unit_of(row, ViewMode::Activity)?;
    if wu.is_start {
        Some(WorkUnitClass::Start)
    } else if wu.is_end {
        Some(WorkUnitClass::End)
    } else {
        None
    }
}

#[test]
fn git_summary_parts_split_the_conventional_prefix_exactly() {
    assert_eq!(
        git_summary_parts(&git_row(), "feat: add thing"),
        Some(("feat".to_owned(), "add thing".to_owned()))
    );
    assert_eq!(git_summary_parts(&git_row(), "no prefix here"), None);
    assert_eq!(git_summary_parts(&git_row(), ": leading colon"), None);
    assert_eq!(git_summary_parts(&base_row(), "feat: add thing"), None);
    assert_eq!(
        git_summary_parts(&git_row(), "  fix  :  spaced  prefix  "),
        Some(("fix".to_owned(), "spaced  prefix  ".to_owned()))
    );
}

#[test]
fn plain_summaries_drop_the_colon_and_markdown_decoration() {
    assert_eq!(
        plain_row_summary(&git_row(), "feat: add thing"),
        "feat add thing"
    );
    assert_eq!(plain_row_summary(&git_row(), "feat:"), "feat");
    assert_eq!(
        plain_row_summary(&base_row(), "# Hello **world**\n- item"),
        "Hello world · item"
    );
}

#[test]
fn display_summaries_compact_only_operational_payloads() {
    let tool = |overrides: &[(&str, Json)]| {
        with(
            &with(
                &base_row(),
                &[
                    ("kind", Json::from_text("tool")),
                    ("record_role", Json::from_text("result")),
                    ("activity_kind", Json::from_text("execute")),
                    ("outcome", Json::from_text("success")),
                    ("is_system", Json::Bool(true)),
                ],
            ),
            overrides,
        )
    };
    assert_eq!(
        display_summary_for_row(&tool(&[]), "tool result: {\"text\": \"did thing\"}"),
        "tool result: {\"text\": \"did thing\"}"
    );
    assert_eq!(
        display_summary_for_row(&tool(&[]), "{\"text\": \"did thing\"}"),
        "did thing"
    );
    assert_eq!(
        display_summary_for_row(
            &tool(&[("outcome", Json::from_text("success"))]),
            "{\"opaque\": true}"
        ),
        "Completed"
    );
    assert_eq!(
        display_summary_for_row(
            &tool(&[("outcome", Json::from_text("failure"))]),
            "{\"opaque\": true}"
        ),
        "Failed"
    );
    assert_eq!(
        display_summary_for_row(
            &with(
                &base_row(),
                &[
                    ("kind", Json::from_text("command")),
                    ("record_role", Json::from_text("action")),
                    ("activity_kind", Json::from_text("execute")),
                ]
            ),
            "{\"opaque\": true}"
        ),
        "Tool request"
    );
    assert_eq!(
        display_summary_for_row(
            &with(
                &base_row(),
                &[
                    ("record_role", Json::from_text("result")),
                    ("activity_kind", Json::from_text("execute")),
                ],
            ),
            "{\"opaque\": true}"
        ),
        "Tool result"
    );
    let narrative = with(
        &base_row(),
        &[
            ("kind", Json::from_text("message")),
            ("record_role", Json::from_text("narrative")),
            ("activity_kind", Json::from_text("conversation")),
        ],
    );
    assert_eq!(
        display_summary_for_row(&narrative, "{\"narrative\": \"authored\"}"),
        "{\"narrative\": \"authored\"}"
    );
    assert_eq!(
        display_summary_for_row(&narrative, "just prose **bold**"),
        "just prose **bold**"
    );
    assert_eq!(
        display_summary_for_row(
            &tool(&[]),
            "Script completed in 12.3s\nwall time 12s\ncell 5"
        ),
        "Script completed in 12.3s\nwall time 12s\ncell 5",
        "non-wrapper prose is returned verbatim before compaction"
    );
}

struct MdCase {
    source: &'static str,
    plain_inline: &'static str,
    plain_line: &'static str,
    plain_summary: &'static str,
    summary_html: &'static str,
}

const MD_CASES: &[MdCase] = &[
    MdCase { source: "# Hello **world**", plain_inline: "# Hello world", plain_line: "Hello world", plain_summary: "Hello world", summary_html: "<span class=\"md-line md-heading md-h1\"><span class=\"md-text\">Hello\u{00a0}</span><strong class=\"md-strong\"><span class=\"md-text\">world</span></strong></span>" },
    MdCase { source: "### Deep ## title ###", plain_inline: "### Deep ## title ###", plain_line: "Deep ## title ###", plain_summary: "Deep ## title ###", summary_html: "<span class=\"md-line md-heading md-h3\"><span class=\"md-text\">Deep ## title</span></span>" },
    MdCase { source: "- [x] done task with **bold**", plain_inline: "- [x] done task with bold", plain_line: "done task with bold", plain_summary: "done task with bold", summary_html: "<span class=\"md-line md-list md-task md-task-done\"><span class=\"md-marker\" aria-hidden=\"true\">\u{2713}</span><span class=\"md-text\">done task with\u{00a0}</span><strong class=\"md-strong\"><span class=\"md-text\">bold</span></strong></span>" },
    MdCase { source: "* [ ] open task", plain_inline: "* [ ] open task", plain_line: "open task", plain_summary: "open task", summary_html: "<span class=\"md-line md-list md-task\"><span class=\"md-marker\" aria-hidden=\"true\">\u{25cb}</span><span class=\"md-text\">open task</span></span>" },
    MdCase { source: "- first item", plain_inline: "- first item", plain_line: "first item", plain_summary: "first item", summary_html: "<span class=\"md-line md-list\"><span class=\"md-marker\" aria-hidden=\"true\">\u{2022}</span><span class=\"md-text\">first item</span></span>" },
    MdCase { source: "1. ordered item", plain_inline: "1. ordered item", plain_line: "ordered item", plain_summary: "ordered item", summary_html: "<span class=\"md-line md-list\"><span class=\"md-marker\" aria-hidden=\"true\">1.</span><span class=\"md-text\">ordered item</span></span>" },
    MdCase { source: "42) paren ordered", plain_inline: "42) paren ordered", plain_line: "paren ordered", plain_summary: "paren ordered", summary_html: "<span class=\"md-line md-list\"><span class=\"md-marker\" aria-hidden=\"true\">42)</span><span class=\"md-text\">paren ordered</span></span>" },
    MdCase { source: "> quoted text", plain_inline: "> quoted text", plain_line: "quoted text", plain_summary: "quoted text", summary_html: "<span class=\"md-line md-quote\"><span class=\"md-marker\" aria-hidden=\"true\">\u{203a}</span><span class=\"md-text\">quoted text</span></span>" },
    MdCase { source: "> [!NOTE] callout body", plain_inline: "> [!NOTE] callout body", plain_line: "callout body", plain_summary: "callout body", summary_html: "<span class=\"md-line md-quote\"><span class=\"md-callout\">NOTE</span><span class=\"md-text\">callout body</span></span>" },
    MdCase { source: "```rust\nfn main() {}", plain_inline: "rust fn main() {}", plain_line: "fn main() {}", plain_summary: "fn main() {}", summary_html: "<span class=\"md-line\"><span class=\"md-text\">fn main() {}</span></span>" },
    MdCase { source: "``` plain code", plain_inline: "plain code", plain_line: "code", plain_summary: "code", summary_html: "<span class=\"md-line md-fence\"><span class=\"md-callout\">plain</span><span class=\"md-text\">code</span></span>" },
    MdCase { source: "just plain text with `code` and *em* and _em2_ and ~~strike~~", plain_inline: "just plain text with code and em and em2 and strike", plain_line: "just plain text with code and em and em2 and strike", plain_summary: "just plain text with code and em and em2 and strike", summary_html: "<span class=\"md-line\"><span class=\"md-text\">just plain text with\u{00a0}</span><code class=\"md-code\">code</code><span class=\"md-text\">\u{00a0}and\u{00a0}</span><em class=\"md-em\"><span class=\"md-text\">em</span></em><span class=\"md-text\">\u{00a0}and\u{00a0}</span><em class=\"md-em\"><span class=\"md-text\">em2</span></em><span class=\"md-text\">\u{00a0}and\u{00a0}</span><span class=\"md-strike\"><span class=\"md-text\">strike</span></span></span>" },
    MdCase { source: "work_unit_id stays *literal*, but *this* is em", plain_inline: "work_unit_id stays literal, but this is em", plain_line: "work_unit_id stays literal, but this is em", plain_summary: "work_unit_id stays literal, but this is em", summary_html: "<span class=\"md-line\"><span class=\"md-text\">work_unit_id stays\u{00a0}</span><em class=\"md-em\"><span class=\"md-text\">literal</span></em><span class=\"md-text\">, but\u{00a0}</span><em class=\"md-em\"><span class=\"md-text\">this</span></em><span class=\"md-text\">\u{00a0}is em</span></span>" },
    MdCase { source: "outer **strong with *inner* em** end", plain_inline: "outer strong with inner em end", plain_line: "outer strong with inner em end", plain_summary: "outer strong with inner em end", summary_html: "<span class=\"md-line\"><span class=\"md-text\">outer\u{00a0}</span><strong class=\"md-strong\"><span class=\"md-text\">strong with\u{00a0}</span><em class=\"md-em\"><span class=\"md-text\">inner</span></em><span class=\"md-text\">\u{00a0}em</span></strong><span class=\"md-text\">\u{00a0}end</span></span>" },
    MdCase { source: "see [the docs](https://example.com/a) and ![alt img](img.png) and [empty](x) ", plain_inline: "see the docs and alt img and empty", plain_line: "see the docs and alt img and empty", plain_summary: "see the docs and alt img and empty", summary_html: "<span class=\"md-line\"><span class=\"md-text\">see\u{00a0}</span><span class=\"md-link\" title=\"https://example.com/a\"><span class=\"md-text\">the docs</span></span><span class=\"md-text\">\u{00a0}and\u{00a0}</span><span class=\"md-image\" title=\"img.png\"><span aria-hidden=\"true\">image · </span><span class=\"md-text\">alt img</span></span><span class=\"md-text\">\u{00a0}and\u{00a0}</span><span class=\"md-link\" title=\"x\"><span class=\"md-text\">empty</span></span></span>" },
    MdCase { source: "escaped \\*stars\\* and \\`tick\\` and \\[brackets\\]", plain_inline: "escaped stars and tick and [brackets]", plain_line: "escaped stars and tick and [brackets]", plain_summary: "escaped stars and tick and [brackets]", summary_html: "<span class=\"md-line\"><span class=\"md-text\">escaped stars and tick and [brackets]</span></span>" },
    MdCase { source: "use `let x = 1;` and ``double`` and `unclosed", plain_inline: "use let x = 1; and double and unclosed", plain_line: "use let x = 1; and double and unclosed", plain_summary: "use let x = 1; and double and unclosed", summary_html: "<span class=\"md-line\"><span class=\"md-text\">use\u{00a0}</span><code class=\"md-code\">let x = 1;</code><span class=\"md-text\">\u{00a0}and\u{00a0}</span><code class=\"md-code\">double</code><span class=\"md-text\">\u{00a0}and unclosed</span></span>" },
    MdCase { source: "**bold **unclosed* and ~~tildes~~ and `backtick", plain_inline: "bold unclosed* and tildes and backtick", plain_line: "bold unclosed* and tildes and backtick", plain_summary: "bold unclosed* and tildes and backtick", summary_html: "<span class=\"md-line\"><strong class=\"md-strong\"><span class=\"md-text\">bold\u{00a0}</span></strong><span class=\"md-text\">unclosed* and\u{00a0}</span><span class=\"md-strike\"><span class=\"md-text\">tildes</span></span><span class=\"md-text\">\u{00a0}and backtick</span></span>" },
    MdCase { source: "<b>bold html</b> and <a href=\"x\">link</a>", plain_inline: "bold html and link", plain_line: "bold html and link", plain_summary: "bold html and link", summary_html: "<span class=\"md-line\"><span class=\"md-text\">bold html and link</span></span>" },
    MdCase { source: "<b>x</b> and <i>y</i>", plain_inline: "x and y", plain_line: "x and y", plain_summary: "x and y", summary_html: "<span class=\"md-line\"><span class=\"md-text\">x and y</span></span>" },
    MdCase { source: "<b>a</b>\n<b>c</b>", plain_inline: "a c", plain_line: "a c", plain_summary: "a · c", summary_html: "<span class=\"md-line\"><span class=\"md-text\">a</span></span><span class=\"md-more\" aria-hidden=\"true\">+1 line</span>" },
    MdCase { source: "first line\n\n- second **line**\nthird", plain_inline: "first line - second line third", plain_line: "first line - second line third", plain_summary: "first line · second line · third", summary_html: "<span class=\"md-line\"><span class=\"md-text\">first line</span></span><span class=\"md-more\" aria-hidden=\"true\">+2 lines</span>" },
    MdCase { source: "   ", plain_inline: "", plain_line: "", plain_summary: "", summary_html: "<span class=\"md-line md-empty\">Structured content</span>" },
    MdCase { source: "", plain_inline: "", plain_line: "", plain_summary: "", summary_html: "<span class=\"md-line md-empty\">Structured content</span>" },
    MdCase { source: "line one\r\nline two\r\n", plain_inline: "line one line two", plain_line: "line one line two", plain_summary: "line one · line two", summary_html: "<span class=\"md-line\"><span class=\"md-text\">line one</span></span><span class=\"md-more\" aria-hidden=\"true\">+1 line</span>" },
    MdCase { source: "{\"text\": \"hello from json\", \"type\": \"output\"}", plain_inline: "{\"text\": \"hello from json\", \"type\": \"output\"}", plain_line: "{\"text\": \"hello from json\", \"type\": \"output\"}", plain_summary: "{\"text\": \"hello from json\", \"type\": \"output\"}", summary_html: "<span class=\"md-line\"><span class=\"md-text\">{&quot;text&quot;: &quot;hello from json&quot;, &quot;type&quot;: &quot;output&quot;}</span></span>" },
];

#[test]
fn markdown_plain_and_summary_goldens_match_production() {
    for case in MD_CASES {
        assert_eq!(
            markdown_plain_inline(case.source),
            case.plain_inline,
            "plainInline for {:?}",
            case.source
        );
        assert_eq!(
            markdown_plain_line(case.source),
            case.plain_line,
            "plainLine for {:?}",
            case.source
        );
        assert_eq!(
            markdown_plain_summary(case.source),
            case.plain_summary,
            "plainSummary for {:?}",
            case.source
        );
        let summary = Summary::parse(case.source);
        assert_eq!(
            render_summary_html(&summary),
            case.summary_html,
            "renderMarkdownSummary for {:?}",
            case.source
        );
    }
}

#[test]
fn summary_structure_and_more_tail_follow_production() {
    let summary = Summary::parse("first\nsecond\nthird");
    assert_eq!(summary.more, 2);
    assert_eq!(summary.line.kind, MdLineKind::Plain);
    let heading = Summary::parse("# Title ###");
    assert_eq!(
        heading.line.kind,
        MdLineKind::Heading { level: 1 },
        "trailing hashes are stripped from the heading content"
    );
    assert_eq!(heading.more, 0);
    let empty = Summary::parse("\n  \n");
    assert_eq!(empty.line.kind, MdLineKind::Empty);
    assert_eq!(empty.more, 0);
}

#[test]
fn markdown_inline_depth_cap_falls_back_to_plain_text() {
    let inline = render_markdown_inline("**a**", 5);
    assert_eq!(
        inline,
        vec![MdInline::Text("a".to_owned())],
        "depth > 4 renders plain text"
    );
}

#[test]
fn code_span_edges_strip_one_space_each_side() {
    let summary = Summary::parse("`` x ``");
    assert_eq!(
        summary.line.kind,
        MdLineKind::Plain,
        "single-line code span classifies as plain"
    );
    let code = find_code(&summary.line.inline).expect("code token");
    assert_eq!(code, "x");
}

fn find_code(inline: &[MdInline]) -> Option<String> {
    for token in inline {
        if let MdInline::Code(code) = token {
            return Some(code.clone());
        }
    }
    None
}

#[test]
fn html_tag_strip_removes_tags_but_keeps_same_line_text() {
    // A tag ends at its own first `>`, so the text between tags on one line
    // survives.
    assert_eq!(markdown_plain_inline("<b>a</b> x"), "a x");
    assert_eq!(markdown_plain_inline("<b>a</b> and <i>y</i>"), "a and y");
    assert_eq!(markdown_plain_inline("<b>a</b> x <i>y</i>"), "a x y");
    assert_eq!(
        markdown_plain_inline("<b class=\"x\">bold</b> text"),
        "bold text"
    );
}

#[test]
fn whitespace_fragments_become_space_tokens() {
    let summary = Summary::parse("a `x`   **b**");
    let has_space = summary
        .line
        .inline
        .iter()
        .any(|t| matches!(t, MdInline::Space));
    assert!(
        has_space,
        "whitespace-only fragment becomes an md-space token"
    );
    assert_eq!(summary.line.inline.len(), 4, "Text, Code, Space, Strong");
}

fn context(view: ViewMode, abs: i64, group_start: bool) -> RowContext {
    RowContext::for_row(view, abs, group_start)
}

fn assert_row(
    name: &str,
    row: &Json,
    ctx: &RowContext,
    expected: (&[&str], &str, &str, &str, &str, &str),
) {
    let spec = RowSpec::from_value(row, ctx);
    let (classes, summary_class, content, date, author, commit) = expected;
    assert_eq!(
        spec.classes().split_whitespace().collect::<Vec<&str>>(),
        classes,
        "{name}: class list",
    );
    let summary_div_class = format!(
        "summary {}{}",
        if spec.content_flags.work_unit_block {
            "work-unit-block "
        } else {
            ""
        },
        if spec.content_flags.work_unit_title_only {
            "work-unit-title-only"
        } else {
            ""
        }
    );
    assert_eq!(
        summary_div_class.trim(),
        summary_class,
        "{name}: summary div class"
    );
    let rendered_content = render_content_html(&spec);
    assert_eq!(rendered_content, content, "{name}: content cell");
    let rendered_tags = render_tags_html(&spec);
    assert_eq!(
        rendered_tags.matches("<span").count(),
        spec.tags.len(),
        "{name}: every tag renders once in the Tags column"
    );
    for chip_class in [
        "git-prefix-chip",
        "bundle-count",
        "bundle-status",
        "session-chip",
        "rel-badge",
        "out-badge",
        "work-unit-count",
    ] {
        assert!(
            !rendered_content.contains(chip_class),
            "{name}: {chip_class} must not render in Content"
        );
    }
    assert_eq!(spec.date_text, date, "{name}: date cell");
    assert_eq!(spec.author_text, author, "{name}: author cell");
    assert_eq!(spec.commit_text, commit, "{name}: commit cell");
}

#[test]
fn plain_row_spec_matches_the_production_row() {
    assert_row("plain",
&base_row(),
&context(ViewMode::Activity, 3, true),
(
&["row", "row-role-narrative", "row-group-start"],
"summary",
"<span class=\"summary-text\"><span class=\"md-line\"><span class=\"md-text\">Agent turn with metadata</span></span></span>",
"Jan 15, 2026 03:59 PM",
"agent",
"t1"
));
    assert_row("plain_not_group_start",
&base_row(),
&context(ViewMode::Activity, 3, false),
(
&["row", "row-role-narrative"],
"summary",
"<span class=\"summary-text\"><span class=\"md-line\"><span class=\"md-text\">Agent turn with metadata</span></span></span>",
"Jan 15, 2026 03:59 PM",
"agent",
"t1"
));
}

#[test]
fn muted_chain_state_drives_row_class_and_graph_masks() {
    let row = with(
        &base_row(),
        &[
            ("chain_state", Json::from_text("muted")),
            ("muted_above", json(r#"[1]"#)),
            ("muted_below", json(r#"[1, 2]"#)),
            ("muted_transitions", json(r#"[[1, 0]]"#)),
        ],
    );
    let spec = RowSpec::from_value(&row, &context(ViewMode::Activity, 3, false));
    assert!(spec.classes().contains("row-chain-muted"));
    assert_eq!(spec.graph.chain_state, ChainState::Muted);
    assert_eq!(spec.graph.muted_above, vec![1]);
    assert_eq!(spec.graph.muted_below, vec![1, 2]);
    assert_eq!(spec.graph.muted_transitions, vec![(1, 0)]);

    let active = RowSpec::from_value(&base_row(), &context(ViewMode::Activity, 3, false));
    assert!(!active.classes().contains("row-chain-muted"));
    assert_eq!(active.graph.chain_state, ChainState::Active);
}

#[test]
fn selection_find_and_roving_tabindex_are_context_driven() {
    let mut ctx = context(ViewMode::Activity, 3, false);
    ctx.selected_key = Some("op:1".to_owned());
    ctx.roving_abs = Some(3);
    let spec = RowSpec::from_value(&base_row(), &ctx);
    assert!(spec.classes().contains("row-selected"));
    assert!(spec.aria.aria_selected);
    assert_eq!(spec.aria.tabindex, 0);
    assert!(spec.flags.selected);

    let mut ctx = context(ViewMode::Activity, 7, false);
    ctx.find_current = true;
    let spec = RowSpec::from_value(&base_row(), &ctx);
    assert!(spec.classes().contains("row-find-current"));
    assert!(!spec.classes().contains("row-selected"));
    assert!(!spec.aria.aria_selected);
    assert_eq!(spec.aria.tabindex, -1);
}

#[test]
fn git_rows_carry_the_prefix_chip_and_deterministic_aria() {
    let ctx = context(ViewMode::Activity, 1, true);
    let spec = RowSpec::from_value(&git_row(), &ctx);
    assert_row("git",
&git_row(),
&ctx,
(
&["row", "row-dim", "row-role-artifact", "row-has-badges", "row-group-start"],
"summary",
"<span class=\"summary-text git-summary-text\"><span class=\"md-line\"><span class=\"md-text\">add\u{00a0}</span><strong class=\"md-strong\"><span class=\"md-text\">search</span></strong><span class=\"md-text\">\u{00a0}bar</span></span><span class=\"md-more\" aria-hidden=\"true\">+1 line</span></span>",
"Jan 15, 2026 04:00 PM",
"ambientlight",
"git:abc123d"
));
    assert_eq!(
        render_tags_html(&spec),
        "<span class=\"git-prefix-chip\" title=\"Commit prefix: feat\" aria-label=\"Commit prefix: feat\">feat</span>"
    );
    assert_eq!(spec.aria.aria_label, "feat add search bar · second line");
    assert_eq!(spec.aria.title, "feat: add search bar · second line");
    assert_eq!(
        spec.aria.base_aria_label,
        "feat add search bar · second line"
    );
    let summary = spec
        .content
        .top
        .as_ref()
        .and_then(|top| top.summary.as_ref())
        .expect("git row summary");
    assert_eq!(summary.git_prefix.as_deref(), Some("feat"));
    assert_eq!(
        summary.plain_content.as_deref(),
        Some("add search bar · second line"),
        "the DOM content excludes the prefix already rendered in the chip"
    );
    assert_eq!(spec.identity.node_key, "git:abc123def456");
    assert_eq!(spec.identity.abs_index, 1);
    assert_eq!(
        spec.identity.git_oid,
        "git:abc123def4567890abcdef1234567890abcdef12"
    );
    assert_eq!(spec.identity.repository, "9007199254740993");
    assert_eq!(spec.identity.turn_id, "");
    assert_eq!(spec.classification.label, "git");
    assert_eq!(spec.classification.source, "activity_kind");
    assert_eq!(
        spec.group_label, None,
        "group markers must not label a graph node connected on both sides"
    );
}

#[test]
fn graph_data_feeds_the_wgpu_frame_contract() {
    let spec = RowSpec::from_value(&git_row(), &context(ViewMode::Activity, 1, false));
    assert_eq!(spec.graph.lane, 1);
    assert_eq!(spec.graph.above, vec![0, 1]);
    assert_eq!(spec.graph.below, vec![1]);
    assert_eq!(spec.graph.transitions, vec![(0, 1)]);
    assert!(!spec.graph.is_subop);
    assert!(!spec.graph.is_bundle);
    assert!(!spec.identity.is_subop);
    assert_eq!(spec.identity.node_key, "git:abc123def456");
    let bundle_spec = RowSpec::from_value(&bundle_row(), &context(ViewMode::Activity, 0, true));
    assert!(bundle_spec.graph.is_bundle);
    assert!(!bundle_spec.graph.expanded);
    assert_eq!(
        bundle_spec.identity.node_key, "bundle:exec1",
        "bundle rows keep their own data-key identity"
    );
    let mut expanded_context = context(ViewMode::Activity, 0, true);
    expanded_context.expanded = true;
    let expanded_bundle = RowSpec::from_value(&bundle_row(), &expanded_context);
    assert!(
        expanded_bundle.graph.expanded,
        "the live disclosure state reaches graph marker selection"
    );
}

#[test]
fn subop_rows_keep_identity_for_opened_group_markers() {
    let ctx = context(ViewMode::Activity, 4, false);
    let spec = RowSpec::from_value(&subop_row(), &ctx);
    assert!(spec.identity.is_subop);
    assert!(spec.graph.is_subop);
    assert_eq!(spec.identity.node_key, "node:1::sub:0");
    assert_eq!(spec.identity.subop_kind, "edit");
    assert_row("subop_edit",
&subop_row(),
&ctx,
(
&["row", "row-dim", "row-subop", "row-role-narrative"],
"summary",
"<span class=\"subop-icon codicon codicon-edit\" aria-hidden=\"true\"></span><span class=\"subop-summary\"><span class=\"md-line\"><span class=\"md-text\">custom-title metadata</span></span></span>",
"Jan 15, 2026 04:00 PM",
"",
"ode:1::sub:0"
));
    let msg_spec = RowSpec::from_value(
        &with(
            &subop_row(),
            &[
                ("subop_kind", Json::from_text("msg")),
                ("summary", Json::from_text("mode")),
                ("node_key", Json::from_text("node:1::sub:1")),
            ],
        ),
        &context(ViewMode::Activity, 5, false),
    );
    assert_eq!(
        msg_spec.identity.node_key.as_str(),
        "node:1::sub:1",
        "sub-op data-key is its own wire identity, never synthesized from the parent"
    );
    assert_eq!(
        msg_spec.content.subop.as_ref().expect("subop content").icon,
        "comment"
    );
}

#[test]
fn disclosure_rows_expose_expandable_and_chevron_labels() {
    let collapsed =
        RowSpec::from_value(&expandable_row(), &context(ViewMode::Activity, 0, false));
    assert!(collapsed.state.expandable);
    assert_eq!(collapsed.expanded(), Some(false));
    assert_eq!(collapsed.aria.aria_expanded, Some(false));
    assert!(collapsed.classes().contains("row-expandable"));
    let disclosure = collapsed.disclosure.as_ref().expect("chevron");
    assert_eq!(disclosure.label, "Expand 2 details");
    assert_eq!(
        render_activity_html(&collapsed),
        "<span class=\"activity-label\">agent</span><button type=\"button\" class=\"subop-chevron\" title=\"Expand 2 details\" aria-label=\"Expand 2 details\" aria-expanded=\"false\">\u{25b8}</button>",
        "the collapsed arrow follows the Activity label"
    );
    assert!(!render_content_html(&collapsed).contains("subop-chevron"));

    let mut ctx = context(ViewMode::Activity, 0, false);
    ctx.expanded = true;
    let expanded = RowSpec::from_value(&expandable_row(), &ctx);
    assert_eq!(expanded.expanded(), Some(true));
    assert_eq!(expanded.aria.aria_expanded, Some(true));
    assert_eq!(
        expanded.disclosure.as_ref().expect("chevron").label,
        "Collapse 2 details"
    );
    assert!(render_activity_html(&expanded).ends_with("\u{25be}</button>"));
}

#[test]
fn bundle_rows_own_chrome_aria_and_data_attributes() {
    let ctx = context(ViewMode::Activity, 0, true);
    let spec = RowSpec::from_value(&bundle_row(), &ctx);
    assert_row(
        "bundle_execute",
        &bundle_row(),
        &ctx,
        (
            &[
                "row",
                "row-tool",
                "row-role-action",
                "row-has-badges",
                "row-group-start",
                "row-activity-bundle",
                "row-expandable",
            ],
            "summary",
            "",
            "Jan 15, 2026 04:00 PM",
            "",
            "bundle:exec1",
        ),
    );
    assert_eq!(
        render_tags_html(&spec),
        "<span class=\"bundle-count\" title=\"2 commands, completed\">2 commands</span><span class=\"bundle-status bundle-status-success\" title=\"completed\" aria-label=\"completed\">\u{2713}</span>"
    );
    assert_eq!(spec.aria.aria_label, "Execute run, 2 steps, completed");
    assert!(is_activity_bundle(&bundle_row(), ViewMode::Activity));
    assert!(is_execute_run_bundle(&bundle_row(), ViewMode::Activity));
    assert!(!is_plan_repeat_bundle(&bundle_row(), ViewMode::Activity));
    assert!(
        !is_activity_bundle(&bundle_row(), ViewMode::Raw),
        "raw view gates bundle chrome"
    );
    let bundle = spec.bundle.as_ref().expect("bundle info");
    assert_eq!(bundle.kind, BundleKind::ExecuteRun);
    assert_eq!(bundle.member_count, Some(2));
    assert!(bundle.status_success);
    let attrs = render_attrs(&spec);
    assert_eq!(
        attrs.get("data-activity-bundle").map(String::as_str),
        Some("execute-run")
    );
    assert_eq!(
        attrs.get("data-bundle-count").map(String::as_str),
        Some("2")
    );

    let plan = RowSpec::from_value(&bundle_plan_row(), &ctx);
    assert_eq!(
        plan.aria.aria_label,
        "Plan group, 3 updates: Repeated plan: same step plan"
    );
    assert_eq!(
        plan.bundle.as_ref().expect("bundle").kind,
        BundleKind::PlanRepeat
    );
    assert!(is_plan_repeat_bundle(
        &bundle_plan_row(),
        ViewMode::Activity
    ));
    assert!(
        plan.content
            .top
            .as_ref()
            .and_then(|top| top.summary.as_ref())
            .is_some(),
        "plan bundles keep their narrative heading"
    );
}

#[test]
fn raw_view_disables_the_semantic_layer() {
    let raw = RowSpec::from_value(&bundle_row(), &context(ViewMode::Raw, 0, true));
    assert!(raw.bundle.is_none());
    assert!(raw.promoted.is_none());
    assert!(raw.work_unit.is_none());
    assert!(!raw.classes().contains("row-activity-bundle"));
    assert_eq!(raw.aria.aria_label, "tool result: execute run (2 steps)");
    assert!(raw
        .content
        .top
        .as_ref()
        .and_then(|top| top.summary.as_ref())
        .is_some());
    let promoted_raw =
        RowSpec::from_value(&promoted_failure_row(), &context(ViewMode::Raw, 3, false));
    assert!(promoted_raw.promoted.is_none());
    assert!(!promoted_raw.classes().contains("row-promoted"));
}

#[test]
fn work_unit_start_rows_render_the_ribbon_header() {
    let ctx = context(ViewMode::Activity, 0, true);
    let spec = RowSpec::from_value(&wu_start_row(), &ctx);
    assert_row("wu_start",
&wu_start_row(),
&ctx,
(
&["row", "row-human", "row-role-narrative", "row-has-badges", "row-work-unit-start"],
"summary work-unit-block work-unit-title-only",
"<span class=\"work-unit-ribbon-line\"><span class=\"work-unit-ribbon\" title=\"User request: make the search faster\">User request: make the search faster</span></span>",
"Jan 15, 2026 04:00 PM",
"human",
"t1"
));
    assert_eq!(
        render_tags_html(&spec),
        "<span class=\"work-unit-count\" title=\"5 entries grouped in this activity\">5 entries</span><span class=\"session-chip session-chip-model\" title=\"Model provider: sglang_dsv4\" aria-label=\"Model provider: sglang_dsv4\">sglang_dsv4</span><span class=\"session-chip session-chip-agent\" title=\"Agent: Harvey\" aria-label=\"Agent: Harvey\">Harvey</span>"
    );
    assert_eq!(
        spec.aria.aria_label,
        "User request: make the search faster, Model provider sglang_dsv4, Agent Harvey"
    );
    assert_eq!(
        spec.aria.base_aria_label,
        "User request: make the search faster"
    );
    assert!(spec.content_flags.work_unit_title_only);
    let attrs = render_attrs(&spec);
    assert_eq!(
        attrs.get("data-work-unit-id").map(String::as_str),
        Some("session:s1/turn:t1")
    );

    // Not at a group start: no session tags, aria suffix, or group class;
    // the row's own work-unit count tag remains.
    let not_start =
        RowSpec::from_value(&wu_start_row(), &context(ViewMode::Activity, 0, false));
    assert!(!not_start.classes().contains("row-group-start"));
    assert_eq!(
        not_start.aria.aria_label,
        "User request: make the search faster"
    );

    // Title-only start: single ribbon line, no count for a single entry.
    let title_only = RowSpec::from_value(
        &wu_start_title_only_row(),
        &context(ViewMode::Activity, 1, false),
    );
    assert!(title_only.content_flags.work_unit_title_only);
    assert!(
        title_only
            .work_unit_header
            .as_ref()
            .expect("header")
            .title_only
    );
    assert!(
        !title_only
            .work_unit_header
            .as_ref()
            .expect("header")
            .show_count
    );
}

#[test]
fn promoted_rows_get_rails_not_badges() {
    let spec = RowSpec::from_value(
        &promoted_failure_row(),
        &context(ViewMode::Activity, 3, false),
    );
    assert_eq!(spec.promoted, Some(PromotedKind::Failure));
    assert!(spec.classes().contains("row-promoted row-promoted-failure"));
    assert_eq!(spec.classification.label, "tooluse");
    assert_eq!(spec.tags.len(), 1);
    assert!(spec
        .tags
        .first()
        .is_some_and(|item| item.classes.starts_with("out-badge")));
}

#[test]
fn graph_subtitles_only_appear_on_true_tips_and_roots() {
    let tip = with(
        &git_row(),
        &[
            ("above", json(r#"[0]"#)),
            ("transitions", json(r#"[]"#)),
            ("group_end", Json::Bool(false)),
        ],
    );
    let tip = RowSpec::from_value(&tip, &context(ViewMode::Activity, 1, false));
    assert_eq!(tip.group_label.as_deref(), Some("Git · repo 199254740993"));

    let root = with(
        &git_row(),
        &[
            ("below", json(r#"[0]"#)),
            ("transitions", json(r#"[]"#)),
            ("group_end", Json::Bool(false)),
        ],
    );
    let root = RowSpec::from_value(&root, &context(ViewMode::Activity, 2, false));
    assert_eq!(root.group_label.as_deref(), Some("Git · repo 199254740993"));

    let parent_anchored_middle = with(
        &git_row(),
        &[
            ("above", json(r#"[0]"#)),
            ("below", json(r#"[1]"#)),
            ("transitions", json(r#"[[0, 1]]"#)),
        ],
    );
    let parent_anchored_middle = RowSpec::from_value(
        &parent_anchored_middle,
        &context(ViewMode::Activity, 3, true),
    );
    assert_eq!(parent_anchored_middle.group_label, None);

    let child_anchored_middle = with(
        &git_row(),
        &[
            ("above", json(r#"[1]"#)),
            ("below", json(r#"[0]"#)),
            ("transitions", json(r#"[[1, 0]]"#)),
        ],
    );
    let child_anchored_middle = RowSpec::from_value(
        &child_anchored_middle,
        &context(ViewMode::Activity, 4, true),
    );
    assert_eq!(child_anchored_middle.group_label, None);
}

#[test]
fn session_chips_stay_on_group_boundaries_while_labels_follow_graph_endpoints() {
    let ctx = context(ViewMode::Activity, 9, true);
    let spec = RowSpec::from_value(&session_meta_row(), &ctx);
    assert!(spec.classes().contains("row-has-badges"));
    assert!(spec.classes().contains("row-group-start"));
    assert_eq!(
        spec.aria.aria_label,
        "session boundary row, Model provider sglang_dsv4, Agent Harvey"
    );
    assert!(spec
        .tags
        .iter()
        .any(|tag| tag.classes == "session-chip session-chip-agent"));
    assert_eq!(
        spec.tags
            .iter()
            .map(|tag| (tag.classes.as_str(), tag.text.as_str()))
            .collect::<Vec<(&str, &str)>>(),
        vec![
            ("session-chip session-chip-model", "sglang_dsv4"),
            ("session-chip session-chip-agent", "Harvey"),
        ]
    );
    assert_eq!(spec.group_label, None);

    let not_group_start =
        RowSpec::from_value(&session_meta_row(), &context(ViewMode::Activity, 10, false));
    assert!(!not_group_start.classes().contains("row-has-badges"));
    assert!(!not_group_start.classes().contains("row-group-start"));
    assert!(not_group_start.tags.is_empty());
    assert_eq!(not_group_start.aria.aria_label, "session boundary row");

    let terminal = with(&session_meta_row(), &[("group_end", Json::Bool(true))]);
    let terminal = RowSpec::from_value(&terminal, &context(ViewMode::Activity, 12, false));
    assert_eq!(terminal.group_label, None);
    assert!(!terminal.classes().contains("row-group-start"));

    let tip = with(&session_meta_row(), &[("above", json(r#"[]"#))]);
    let tip = RowSpec::from_value(&tip, &context(ViewMode::Activity, 13, true));
    assert_eq!(tip.group_label.as_deref(), Some("q0 · Harvey"));

    let root = with(&session_meta_row(), &[("below", json(r#"[]"#))]);
    let root = RowSpec::from_value(&root, &context(ViewMode::Activity, 14, false));
    assert_eq!(root.group_label.as_deref(), Some("q0 · Harvey"));
}

#[test]
fn placeholders_carry_identity_only() {
    let spec = RowSpec::placeholder(42);
    assert!(spec.placeholder);
    assert_eq!(spec.identity.abs_index, 42);
    assert_eq!(spec.identity.node_key, "");
    assert_eq!(RowSpec::placeholder_classes(), "row row-placeholder");
    assert_eq!(spec.classes(), "row");
    assert_eq!(spec.open_json, None);
    assert!(spec.tags.is_empty());
    assert!(spec.classification.label.is_empty());
    assert!(spec.content.top.is_none());
}

#[test]
fn open_json_envelopes_are_exact_and_eligibility_is_strict() {
    let git = git_row();
    let spec = RowSpec::from_value(&git, &context(ViewMode::Activity, 1, false));
    assert!(spec.open_json.is_some());
    let envelope = open_json_envelope(&git).expect("git envelope");
    assert_eq!(
        envelope.get("type").and_then(Json::as_str),
        Some("openJson")
    );
    assert_eq!(
        envelope.get("git_oid").and_then(Json::as_str),
        Some("git:abc123def4567890abcdef1234567890abcdef12")
    );
    assert_eq!(
        envelope.get("repository").and_then(Json::as_str),
        Some("9007199254740993")
    );

    let op_row = with(&base_row(), &[("op_id", Json::from_text("node:1"))]);
    let envelope = open_json_envelope(&op_row).expect("op envelope");
    assert_eq!(
        envelope.get("type").and_then(Json::as_str),
        Some("openJson")
    );
    assert_eq!(
        envelope.get("op_id").and_then(Json::as_str),
        Some("node:1")
    );
    assert!(envelope.get("git_oid").is_none());

    // Sub-ops carry their own op_id and stay eligible on their own key.
    let sub = subop_row();
    assert_eq!(
        open_json_envelope(&sub)
            .expect("subop")
            .get("op_id")
            .and_then(Json::as_str),
        Some("node:1::sub:0")
    );

    // A row with neither identifier is ineligible.
    let empty = with(&base_row(), &[("op_id", Json::Null)]);
    assert_eq!(open_json_envelope(&empty), None);
    assert!(!is_open_json_eligible(&empty));
    // Falsy identifiers are ineligible.
    assert_eq!(
        open_json_envelope(&with(&base_row(), &[("op_id", Json::from_text(""))])),
        None
    );
}

#[test]
fn missing_additive_fields_default_like_the_production_row() {
    let sparse = json(r#"{
        "node_key": "k",
        "summary": "sparse row"
    }"#);
    let spec = RowSpec::from_value(&sparse, &context(ViewMode::Activity, 0, false));
    assert_eq!(spec.identity.op_id, "");
    assert_eq!(spec.identity.git_oid, "");
    assert_eq!(spec.identity.turn_id, "");
    assert_eq!(spec.record_role, "");
    assert_eq!(spec.activity_kind, "");
    assert_eq!(spec.outcome, "");
    assert_eq!(spec.role_class, None);
    assert_eq!(spec.kind_class, KindClass::Dim, "unknown kinds dim");
    assert_eq!(spec.graph.lane, 0);
    assert!(spec.graph.above.is_empty());
    assert!(spec.graph.below.is_empty());
    assert!(spec.graph.transitions.is_empty());
    assert_eq!(spec.date_text, "", "missing timestamp renders no date");
    assert_eq!(spec.author_text, "");
    assert_eq!(spec.commit_text, "");
    assert_eq!(spec.summary_source, "sparse row");
    assert!(spec.work_unit.is_none());
    assert!(spec.bundle.is_none());
    assert!(spec.promoted.is_none());
    assert_eq!(
        spec.open_json, None,
        "no identifiers -> no openJson envelope"
    );
    // Summary pipeline defaults.
    let no_summary = RowSpec::from_value(
        &with(&base_row(), &[("summary", Json::from_text(""))]),
        &context(ViewMode::Activity, 14, false),
    );
    assert_eq!(no_summary.summary_source, "(no summary)");
    assert_eq!(no_summary.plain_summary, "(no summary)");
    assert_eq!(no_summary.detail_summary, "(no summary)");
    assert_eq!(no_summary.aria.aria_label, "(no summary)");
    assert_eq!(no_summary.aria.title, "(no summary)");
}

#[test]
fn row_aria_attrs_match_build_row_html_exactly() {
    let mut ctx = context(ViewMode::Activity, 3, true);
    ctx.roving_abs = Some(3);
    let spec = RowSpec::from_value(&base_row(), &ctx);
    let attrs = render_attrs(&spec);
    assert_eq!(attrs.get("role").map(String::as_str), Some("row"));
    assert_eq!(attrs.get("tabindex").map(String::as_str), Some("0"));
    assert_eq!(
        attrs.get("aria-selected").map(String::as_str),
        Some("false")
    );
    assert_eq!(attrs.get("data-row").map(String::as_str), Some("3"));
    assert_eq!(attrs.get("data-key").map(String::as_str), Some("op:1"));
    assert_eq!(
        attrs.get("data-classification").map(String::as_str),
        Some("agent")
    );
    assert_eq!(
        attrs.get("aria-label").map(String::as_str),
        Some("Agent turn with metadata")
    );
    assert_eq!(
        attrs.get("title").map(String::as_str),
        Some("Agent turn with metadata")
    );
    assert_eq!(
        attrs.get("data-base-aria-label").map(String::as_str),
        Some("Agent turn with metadata")
    );
    assert!(
        !attrs.contains_key("aria-expanded"),
        "no aria-expanded without sub-ops"
    );
    assert!(!attrs.contains_key("data-work-unit-id"));
    assert!(!attrs.contains_key("data-activity-bundle"));
    assert!(!attrs.contains_key("data-bundle-count"));
}

#[test]
fn tool_payload_rows_render_the_compacted_display_summary() {
    let tool = with(
        &base_row(),
        &[
            ("node_key", Json::from_text("tool:1")),
            (
                "summary",
                Json::from_text("tool result: {\"text\": \"done the thing\", \"type\": \"output\"}"),
            ),
            ("kind", Json::from_text("tool")),
            ("record_role", Json::from_text("result")),
            ("activity_kind", Json::from_text("execute")),
            ("outcome", Json::from_text("success")),
            ("is_system", Json::Bool(true)),
            ("timestamp_ms", json(r#"1768492800000"#)),
            ("session_meta", Json::Null),
        ],
    );
    let spec = RowSpec::from_value(&tool, &context(ViewMode::Activity, 11, false));
    assert_eq!(
        spec.display_summary,
        "tool result: {\"text\": \"done the thing\", \"type\": \"output\"}"
    );
    assert_row("tool_payload",
&tool,
&context(ViewMode::Activity, 11, false),
(
&["row", "row-tool", "row-role-result"],
"summary",
"<span class=\"summary-text\"><span class=\"md-line\"><span class=\"md-text\">tool result: {&quot;text&quot;: &quot;done the thing&quot;, &quot;type&quot;: &quot;output&quot;}</span></span></span>",
"Jan 15, 2026 04:00 PM",
"agent",
"t1"
));
}

#[test]
fn relation_badges_dedupe_and_skip_unknown_kinds() {
    let spec = RowSpec::from_value(
        &with(
            &base_row(),
            &[(
                "parent_relations",
                json(r#"[
                    { "kind": "fork" },
                    { "kind": "fork" },
                    { "kind": "subagent" },
                    { "kind": "future-kind" }
                ]"#),
            )],
        ),
        &context(ViewMode::Activity, 6, false),
    );
    assert_eq!(spec.tags.len(), 2);
    assert!(spec.classes().contains("row-has-badges"));
    let fork = spec.tags.first().expect("fork badge");
    assert_eq!(fork.classes, "rel-badge rel-fork");
    let subagent = spec.tags.get(1).expect("subagent badge");
    assert_eq!(subagent.classes, "rel-badge rel-subagent");
    assert_eq!(spec.classification.label, "agent");
}

#[test]
fn additional_row_goldens_cover_the_flat_and_raw_surfaces() {
    // Human message: strong + code inline, author class.
    let human = with(
        &base_row(),
        &[
            ("author", Json::from_text("human")),
            ("summary", Json::from_text("human message with **bold** and `code`")),
        ],
    );
    assert_row("human",
&human,
&context(ViewMode::Activity, 2, false),
(
&["row", "row-human", "row-role-narrative"],
"summary",
"<span class=\"summary-text\"><span class=\"md-line\"><span class=\"md-text\">human message with\u{00a0}</span><strong class=\"md-strong\"><span class=\"md-text\">bold</span></strong><span class=\"md-text\">\u{00a0}and\u{00a0}</span><code class=\"md-code\">code</code></span></span>",
"Jan 15, 2026 03:59 PM",
"human",
"t1"
));

    // System rows are tool-classed; their activity is rendered separately.
    let system = with(
        &base_row(),
        &[
            ("node_key", Json::from_text("op:3")),
            ("summary", Json::from_text("system record")),
            ("kind", Json::from_text("tool")),
            ("is_system", Json::Bool(true)),
            ("record_role", Json::from_text("lifecycle")),
            ("activity_kind", Json::from_text("system")),
            ("author", Json::from_text("")),
            ("commit_id", Json::from_text("")),
            ("turn_id", Json::from_text("")),
            ("op_id", Json::Null),
            ("timestamp_ms", json(r#"1768492800000"#)),
        ],
    );
    assert_row("system",
&system,
&context(ViewMode::Activity, 5, false),
(
&["row", "row-tool", "row-role-lifecycle"],
"summary",
"<span class=\"summary-text\"><span class=\"md-line\"><span class=\"md-text\">system record</span></span></span>",
"Jan 15, 2026 04:00 PM",
"",
""
));

    // A tool result row keeps its flat summary in the raw view.
    let dim = with(
        &base_row(),
        &[
            ("node_key", Json::from_text("op:2")),
            ("summary", Json::from_text("op result: tool output")),
            ("kind", Json::from_text("tool")),
            ("record_role", Json::from_text("result")),
            ("activity_kind", Json::from_text("execute")),
            ("author", Json::from_text("")),
            ("op_id", Json::from_text("node:2::sub:1")),
            ("commit_id", Json::from_text("node:2")),
            ("turn_id", Json::from_text("")),
            ("timestamp_ms", json(r#"1768492800000"#)),
        ],
    );
    assert_row("dim_tool",
&dim,
&context(ViewMode::Raw, 4, false),
(
&["row", "row-dim", "row-role-result"],
"summary",
"<span class=\"summary-text\"><span class=\"md-line\"><span class=\"md-text\">op result: tool output</span></span></span>",
"Jan 15, 2026 04:00 PM",
"",
"node:2"
));

    // Raw view: bundles flatten back to ordinary expandable rows.
    assert_row("raw_view_bundle",
&bundle_row(),
&context(ViewMode::Raw, 0, true),
(
&["row", "row-tool", "row-role-action", "row-group-start", "row-expandable"],
"summary",
"<span class=\"summary-text\"><span class=\"md-line\"><span class=\"md-text\">tool result: execute run (2 steps)</span></span></span>",
"Jan 15, 2026 04:00 PM",
"",
"bundle:exec1"
));

    // Unknown bundle kinds stay flat (no bundle chrome, no bundle class).
    let unknown = with(
        &bundle_row(),
        &[
            ("node_key", Json::from_text("bundle:future")),
            (
                "activity_bundle",
                json(r#"{ "kind": "future-kind", "member_count": 4 }"#),
            ),
        ],
    );
    assert_row("bundle_unknown_kind",
&unknown,
&context(ViewMode::Activity, 0, false),
(
&["row", "row-tool", "row-role-action", "row-expandable"],
"summary",
"<span class=\"summary-text\"><span class=\"md-line\"><span class=\"md-text\">tool result: execute run (2 steps)</span></span></span>",
"Jan 15, 2026 04:00 PM",
"",
"bundle:exec1"
));

    // Work-unit end rows carry the boundary class and stay flat.
    let wu_end = with(
        &base_row(),
        &[
            ("node_key", Json::from_text("wu:a2")),
            ("kind", Json::from_text("tool")),
            ("record_role", Json::from_text("result")),
            ("activity_kind", Json::from_text("execute")),
            ("outcome", Json::from_text("success")),
            (
                "work_unit",
                json(r#"{ "id": "session:s1/turn:t1", "title": "x", "is_start": false, "is_end": true, "count": 5 }"#),
            ),
            ("session_meta", Json::Null),
        ],
    );
    assert_row("wu_end",
&wu_end,
&context(ViewMode::Activity, 2, false),
(
&["row", "row-dim", "row-role-result", "row-work-unit-end"],
"summary",
"<span class=\"summary-text\"><span class=\"md-line\"><span class=\"md-text\">Agent turn with metadata</span></span></span>",
"Jan 15, 2026 03:59 PM",
"agent",
"t1"
));

    // Narrative JSON stays authored content (no compaction).
    let narrative_json = with(
        &base_row(),
        &[(
            "summary",
            Json::from_text("{\"narrative\": \"keep this as authored\"}"),
        )],
    );
    assert_row("narrative_json",
&narrative_json,
&context(ViewMode::Activity, 13, false),
(
&["row", "row-role-narrative"],
"summary",
"<span class=\"summary-text\"><span class=\"md-line\"><span class=\"md-text\">{&quot;narrative&quot;: &quot;keep this as authored&quot;}</span></span></span>",
"Jan 15, 2026 03:59 PM",
"agent",
"t1"
));

    // Relation + consequential outcome tags keep the branch semantics.
    let rel_warning = with(
        &base_row(),
        &[
            ("parent_relations", json(r#"[{ "kind": "reconnect" }]"#)),
            ("outcome", Json::from_text("warning")),
            ("session_meta", Json::Null),
        ],
    );
    assert_row("relations_reconnect_warning",
&rel_warning,
&context(ViewMode::Activity, 7, false),
(
&["row", "row-role-narrative", "row-has-badges"],
"summary",
"<span class=\"summary-text\"><span class=\"md-line\"><span class=\"md-text\">Agent turn with metadata</span></span></span>",
"Jan 15, 2026 03:59 PM",
"agent",
"t1"
));
    let relation_spec =
        RowSpec::from_value(&rel_warning, &context(ViewMode::Activity, 7, false));
    assert_eq!(
        relation_spec
            .tags
            .iter()
            .map(|tag| tag.text.as_str())
            .collect::<Vec<&str>>(),
        vec!["↩ return", "warn"]
    );

    // Session metadata renders no tags away from the group boundary and
    // contributes no badge class there.
    assert_row("session_meta_not_group_start",
&session_meta_row(),
&context(ViewMode::Activity, 10, false),
(
&["row", "row-role-narrative"],
"summary",
"<span class=\"summary-text\"><span class=\"md-line\"><span class=\"md-text\">session boundary row</span></span></span>",
"Jan 15, 2026 03:59 PM",
"agent",
"node:1"
));
}

#[test]
fn subop_icon_variants_render_in_the_content_cell() {
    let msg = with(
        &subop_row(),
        &[
            ("node_key", Json::from_text("node:1::sub:1")),
            ("summary", Json::from_text("mode")),
            ("subop_kind", Json::from_text("msg")),
        ],
    );
    assert_row("subop_msg",
&msg,
&context(ViewMode::Activity, 5, false),
(
&["row", "row-dim", "row-subop", "row-role-narrative"],
"summary",
"<span class=\"subop-icon codicon codicon-comment\" aria-hidden=\"true\"></span><span class=\"subop-summary\"><span class=\"md-line\"><span class=\"md-text\">mode</span></span></span>",
"Jan 15, 2026 04:00 PM",
"",
"ode:1::sub:0"
));
    let msg_spec = RowSpec::from_value(&msg, &context(ViewMode::Activity, 5, false));
    assert_eq!(
        msg_spec.classification.label, "agent",
        "expanded sub-rows retain the Activity-column classification"
    );
    let meta = with(
        &subop_row(),
        &[
            ("node_key", Json::from_text("node:1::sub:2")),
            ("summary", Json::from_text("tool_result stuff")),
            ("subop_kind", Json::from_text("meta")),
        ],
    );
    let spec = RowSpec::from_value(&meta, &context(ViewMode::Activity, 6, false));
    assert_eq!(
        spec.content.subop.as_ref().expect("subop").icon,
        "info",
        "meta and unknown kinds fall back to the info codicon"
    );
}

#[test]
fn find_match_and_expanded_states_apply_classes_and_aria() {
    let expanded = RowSpec::from_value(
        &expandable_row(),
        &RowContext {
            view: ViewMode::Activity,
            abs_index: 0,
            is_group_start: false,
            selected_key: None,
            find_current: true,
            expanded: true,
            roving_abs: Some(0),
        },
    );
    assert!(expanded.classes().contains("row-find-current"));
    assert!(expanded.classes().contains("row-expandable"));
    assert_eq!(expanded.aria.aria_expanded, Some(true));
    assert_eq!(expanded.aria.tabindex, 0);
    assert_eq!(
        render_content_html(&expanded),
        "<span class=\"summary-text\"><span class=\"md-line\"><span class=\"md-text\">Agent turn with metadata</span></span></span>",
        "moving disclosure leaves the content summary unchanged"
    );
    assert!(render_activity_html(&expanded).contains("aria-expanded=\"true\">\u{25be}"));
}
