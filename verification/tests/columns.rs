use editchain_history::columns::{
    col_style, hidden_columns, resizable_columns, ColKey, ColWidths,
};

#[test]
fn col_style_keeps_the_fixed_date_column_outside_the_narrow_breakpoint() {
    let widths: ColWidths<String> = ColWidths::default();
    assert_eq!(
        col_style("44.28", 1440, &widths),
        "--graph-w:44.28px;--date-w:140px",
        "wide panels carry the fixed date width"
    );
    assert_eq!(
        col_style("44.28", 380, &widths),
        "--graph-w:44.28px",
        "narrow panels drop the date track"
    );
    let dragged = ColWidths {
        content: Some("220".to_string()),
        date: Some("90".to_string()),
        ..ColWidths::default()
    };
    assert_eq!(
        col_style("44.28", 1440, &dragged),
        "--graph-w:44.28px;--content-w:220px;--date-w:90px",
        "dragged overrides reach the inline style"
    );
}

#[test]
fn every_column_has_min_default_and_parse_round_trips() {
    for col in [
        ColKey::Graph,
        ColKey::Content,
        ColKey::Date,
        ColKey::Author,
        ColKey::Commit,
    ] {
        assert!(col.min_width() >= 40, "{} min width", col.as_str());
        assert!(
            f64::from(col.default_width()) >= 0.0,
            "{} default width",
            col.as_str()
        );
        assert_eq!(
            ColKey::parse(col.as_str()),
            Some(col),
            "{} parses back",
            col.as_str()
        );
    }
    assert_eq!(ColKey::parse("nope"), None);
    assert_eq!(ColKey::parse(""), None);
}

#[test]
fn col_widths_set_applies_and_clears_overrides() {
    let mut widths: ColWidths<f64> = ColWidths::default();
    widths.set(ColKey::Graph, Some(180.0));
    widths.set(ColKey::Content, Some(220.0));
    widths.set(ColKey::Date, Some(90.0));
    assert_eq!(widths.graph, Some(180.0));
    assert_eq!(widths.content, Some(220.0));
    assert_eq!(widths.date, Some(90.0));
    assert_eq!(widths.get(ColKey::Content), Some(&220.0));
    assert_eq!(widths.get(ColKey::Author), None);
    widths.set(ColKey::Graph, None);
    assert_eq!(widths.graph, None);
}

#[test]
fn hidden_columns_keep_author_and_commit_hidden_and_drop_date_narrow() {
    assert_eq!(hidden_columns(1440), vec![ColKey::Author, ColKey::Commit]);
    assert_eq!(
        hidden_columns(380),
        vec![ColKey::Author, ColKey::Commit, ColKey::Date]
    );
}

#[test]
fn shown_columns_can_be_resized() {
    assert_eq!(
        resizable_columns(401),
        vec![ColKey::Graph, ColKey::Content, ColKey::Date]
    );
    assert_eq!(resizable_columns(400), vec![ColKey::Graph, ColKey::Content]);
}
