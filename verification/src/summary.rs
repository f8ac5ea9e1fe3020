//! The summary of a row: its first line that says something, and how many follow.

use crate::chars;
use crate::json::{Json, JsonView};
use crate::markdown::{self, inline_chars, MdInline, MdView};
use crate::plain_text::{self, markdown_plain_summary, plain_line_chars};
use crate::row;
use crate::text::{chars_of, string_of};
use vstd::prelude::*;

verus! {

/// What kind of line a summary shows.
#[derive(Debug, PartialEq, Eq)]
pub enum MdLineKind {
    Heading { level: u8 },
    Task { done: bool },
    Unordered,
    Ordered { marker: String },
    Quote { callout: Option<String> },
    Fence { language: String },
    Plain,
    /// No line says anything.
    Empty,
}

/// The contents of the kind of a line.
pub ghost enum KindView {
    Heading { level: int },
    Task { done: bool },
    Unordered,
    Ordered { marker: Seq<char> },
    Quote { callout: Option<Seq<char>> },
    Fence { language: Seq<char> },
    Plain,
    Empty,
}

/// The contents of an optional text.
pub open spec fn optional_text(text: Option<String>) -> Option<Seq<char>> {
    match text {
        Some(text) => Some(text@),
        None => None,
    }
}

impl View for MdLineKind {
    type V = KindView;

    open spec fn view(&self) -> KindView {
        match *self {
            MdLineKind::Heading { level } => KindView::Heading { level: level as int },
            MdLineKind::Task { done } => KindView::Task { done },
            MdLineKind::Unordered => KindView::Unordered,
            MdLineKind::Ordered { marker } => KindView::Ordered { marker: marker@ },
            MdLineKind::Quote { callout } => KindView::Quote { callout: optional_text(callout) },
            MdLineKind::Fence { language } => KindView::Fence { language: language@ },
            MdLineKind::Plain => KindView::Plain,
            MdLineKind::Empty => KindView::Empty,
        }
    }
}

/// One line of a summary.
#[derive(Debug, PartialEq, Eq)]
pub struct MdLine {
    pub kind: MdLineKind,
    pub inline: Vec<MdInline>,
}

/// The contents of a line.
pub ghost struct LineView {
    pub kind: KindView,
    pub inline: Seq<MdView>,
}

impl View for MdLine {
    type V = LineView;

    open spec fn view(&self) -> LineView {
        LineView { kind: self.kind@, inline: markdown::pieces(self.inline@) }
    }
}

/// Text without white space and number signs at its end.
pub open spec fn without_tail(text: Seq<char>) -> Seq<char>
    decreases text.len(),
{
    if text.len() > 0 && (chars::white(text.last()) || text.last() == '#') {
        without_tail(text.drop_last())
    } else {
        text
    }
}

fn drop_tail(text: &[char]) -> (out: Vec<char>)
    ensures
        out@ == without_tail(text@),
{
    let mut out = chars::tail_of(text, 0);
    assert(out@ =~= text@);
    while out.len() > 0 && (chars::is_white(out[out.len() - 1]) || out[out.len() - 1] == '#')
        invariant
            without_tail(out@) == without_tail(text@),
        decreases out.len(),
    {
        let ghost before = out@;
        out.pop();
        assert(out@ =~= before.drop_last());
    }
    out
}

/// A line of a kind with the pieces of its text.
pub open spec fn line_of(kind: KindView, text: Seq<char>) -> LineView {
    LineView { kind, inline: markdown::inline(text, 0) }
}

/// The heading that a line is, if it says something.
pub open spec fn heading_line(line: Seq<char>) -> Option<LineView> {
    match plain_text::heading(line) {
        Some((marks, at)) => if without_tail(line.skip(at)).len() > 0 {
            Some(line_of(KindView::Heading { level: marks }, without_tail(line.skip(at))))
        } else {
            None
        },
        None => None,
    }
}

/// The task that a line is, if it says something.
pub open spec fn task_line(line: Seq<char>) -> Option<LineView> {
    match plain_text::task(line) {
        Some((done, at)) => if at < line.len() {
            Some(line_of(KindView::Task { done }, line.skip(at)))
        } else {
            None
        },
        None => None,
    }
}

/// The list item that a line is, if it says something.
pub open spec fn list_line(line: Seq<char>) -> Option<LineView> {
    match plain_text::list_item(line) {
        Some(at) => if at < line.len() {
            Some(line_of(KindView::Unordered, line.skip(at)))
        } else {
            None
        },
        None => None,
    }
}

/// The numbered item that a line is, if it says something.
pub open spec fn ordered_line(line: Seq<char>) -> Option<LineView> {
    match plain_text::ordered_item(line) {
        Some((mark, at)) => if at < line.len() {
            Some(line_of(KindView::Ordered { marker: line.take(mark) }, line.skip(at)))
        } else {
            None
        },
        None => None,
    }
}

/// The quote that a line is, if it says something, with its callout.
pub open spec fn quote_line(line: Seq<char>) -> Option<LineView> {
    match plain_text::quote(line) {
        Some(at) => if at < line.len() {
            let text = line.skip(at);
            match plain_text::callout(text) {
                Some((name_end, start)) => Some(
                    line_of(
                        KindView::Quote { callout: Some(text.subrange(2, name_end)) },
                        text.skip(start),
                    ),
                ),
                None => Some(line_of(KindView::Quote { callout: None }, text)),
            }
        } else {
            None
        },
        None => None,
    }
}

/// The fence that a line is, with its language.
pub open spec fn fence_line(line: Seq<char>) -> Option<LineView> {
    match plain_text::fence(line) {
        Some((name, name_end, at)) => Some(
            line_of(KindView::Fence { language: line.subrange(name, name_end) }, line.skip(at)),
        ),
        None => None,
    }
}

/// A source line: the first of heading, task, list item, numbered item, quote,
/// and fence that it is, otherwise plain text.
pub open spec fn source_line(value: Seq<char>) -> LineView {
    let line = chars::trim(value);
    if line.len() == 0 {
        LineView { kind: KindView::Plain, inline: Seq::empty() }
    } else if heading_line(line) is Some {
        heading_line(line)->0
    } else if task_line(line) is Some {
        task_line(line)->0
    } else if list_line(line) is Some {
        list_line(line)->0
    } else if ordered_line(line) is Some {
        ordered_line(line)->0
    } else if quote_line(line) is Some {
        quote_line(line)->0
    } else if fence_line(line) is Some {
        fence_line(line)->0
    } else {
        line_of(KindView::Plain, line)
    }
}

fn make_line(kind: MdLineKind, text: &[char]) -> (line: MdLine)
    ensures
        line@ == line_of(kind@, text@),
{
    MdLine { kind, inline: inline_chars(text, 0) }
}

/// One source line.
pub fn line_from_chars(value: &[char]) -> (out: MdLine)
    ensures
        out@ == source_line(value@),
{
    let line = chars::trimmed(value);
    if line.len() == 0 {
        let out = MdLine { kind: MdLineKind::Plain, inline: Vec::new() };
        assert(out@.inline =~= Seq::empty());
        return out;
    }
    if let Some((marks, at)) = plain_text::find_heading(line.as_slice()) {
        let rest = chars::tail_of(line.as_slice(), at);
        let text = drop_tail(rest.as_slice());
        if text.len() > 0 {
            return make_line(MdLineKind::Heading { level: marks as u8 }, text.as_slice());
        }
    }
    if let Some((done, at)) = plain_text::find_task(line.as_slice()) {
        if at < line.len() {
            let text = chars::tail_of(line.as_slice(), at);
            return make_line(MdLineKind::Task { done }, text.as_slice());
        }
    }
    if let Some(at) = plain_text::find_list_item(line.as_slice()) {
        if at < line.len() {
            let text = chars::tail_of(line.as_slice(), at);
            return make_line(MdLineKind::Unordered, text.as_slice());
        }
    }
    if let Some((mark, at)) = plain_text::find_ordered_item(line.as_slice()) {
        if at < line.len() {
            let text = chars::tail_of(line.as_slice(), at);
            let marker = chars::slice_of(line.as_slice(), 0, mark);
            assert(marker@ =~= line@.take(mark as int));
            return make_line(
                MdLineKind::Ordered { marker: string_of(marker.as_slice()) },
                text.as_slice(),
            );
        }
    }
    if let Some(at) = plain_text::find_quote(line.as_slice()) {
        if at < line.len() {
            let text = chars::tail_of(line.as_slice(), at);
            return match plain_text::find_callout(text.as_slice()) {
                Some((name_end, start)) => {
                    let name = chars::slice_of(text.as_slice(), 2, name_end);
                    let rest = chars::tail_of(text.as_slice(), start);
                    make_line(
                        MdLineKind::Quote { callout: Some(string_of(name.as_slice())) },
                        rest.as_slice(),
                    )
                },
                None => make_line(MdLineKind::Quote { callout: None }, text.as_slice()),
            };
        }
    }
    if let Some((name, name_end, at)) = plain_text::find_fence(line.as_slice()) {
        let language = chars::slice_of(line.as_slice(), name, name_end);
        let text = chars::tail_of(line.as_slice(), at);
        return make_line(
            MdLineKind::Fence { language: string_of(language.as_slice()) },
            text.as_slice(),
        );
    }
    make_line(MdLineKind::Plain, line.as_slice())
}

/// One source line.
pub fn render_markdown_line(value: &str) -> (out: MdLine)
    ensures
        out@ == source_line(value@),
{
    let line = chars_of(value);
    line_from_chars(line.as_slice())
}

/// The first line that says something, and how many more do.
#[derive(Debug, PartialEq, Eq)]
pub struct Summary {
    pub line: MdLine,
    pub more: usize,
}

/// The contents of a summary.
pub ghost struct SummaryView {
    pub line: LineView,
    pub more: int,
}

impl View for Summary {
    type V = SummaryView;

    open spec fn view(&self) -> SummaryView {
        SummaryView { line: self.line@, more: self.more as int }
    }
}

/// Whether a trimmed line says something.
pub open spec fn says_something(line: Seq<char>) -> bool {
    chars::trim(line).len() > 0 && plain_text::plain_line(line).len() > 0
}

/// The trimmed lines among the first `n` that say something.
pub open spec fn telling_lines(lines: Seq<Seq<char>>, n: int) -> Seq<Seq<char>>
    decreases n,
{
    if n <= 0 {
        Seq::empty()
    } else if says_something(chars::trim(lines[n - 1])) {
        telling_lines(lines, n - 1).push(chars::trim(lines[n - 1]))
    } else {
        telling_lines(lines, n - 1)
    }
}

/// The summary of a text.
pub open spec fn summary_of(value: Seq<char>) -> SummaryView {
    let lines = chars::lines(value);
    let telling = telling_lines(lines, lines.len() as int);
    if telling.len() == 0 {
        SummaryView {
            line: LineView { kind: KindView::Empty, inline: Seq::empty() },
            more: 0,
        }
    } else {
        SummaryView { line: source_line(telling[0]), more: telling.len() - 1 }
    }
}

impl Summary {
    /// The summary of a text.
    pub fn parse(value: &str) -> (summary: Summary)
        ensures
            summary@ == summary_of(value@),
    {
        let text = chars_of(value);
        let parts = chars::split_lines(text.as_slice());
        let ghost lines = chars::lines(value@);
        let mut kept: Vec<Vec<char>> = Vec::new();
        let mut i: usize = 0;
        assert(chars::views(kept@) =~= telling_lines(lines, 0));
        while i < parts.len()
            invariant
                i <= parts.len(),
                chars::views(parts@) == lines,
                chars::views(kept@) == telling_lines(lines, i as int),
            decreases parts.len() - i,
        {
            assert(lines[i as int] == parts@[i as int]@);
            let line = chars::trimmed(parts[i].as_slice());
            let again = chars::trimmed(line.as_slice());
            let plain = plain_line_chars(line.as_slice());
            let ghost before = chars::views(kept@);
            let ghost trimmed = line@;
            if again.len() > 0 && plain.len() > 0 {
                kept.push(line);
                assert(chars::views(kept@) =~= before.push(trimmed));
            }
            i = i + 1;
        }
        if kept.len() == 0 {
            let line = MdLine { kind: MdLineKind::Empty, inline: Vec::new() };
            assert(line@.inline =~= Seq::empty());
            return Summary { line, more: 0 };
        }
        assert(chars::views(kept@)[0] == kept@[0]@);
        Summary { line: line_from_chars(kept[0].as_slice()), more: kept.len() - 1 }
    }
}

/// The first place of a character from `from` on.
pub open spec fn place_of(text: Seq<char>, c: char, from: int) -> Option<int>
    decreases text.len() - from,
{
    if from < 0 || from >= text.len() {
        None
    } else if text[from] == c {
        Some(from)
    } else {
        place_of(text, c, from + 1)
    }
}

/// The prefix of a commit summary before its first colon, and the rest; other
/// rows have none.
pub open spec fn git_parts(row: JsonView, value: Seq<char>) -> Option<(Seq<char>, Seq<char>)> {
    match place_of(value, ':', 0) {
        Some(colon) => {
            let prefix = chars::trim(value.take(colon));
            if row::text_of(row, "git_oid"@).len() > 0 && prefix.len() > 0 {
                Some((prefix, chars::trim_start(value.skip(colon + 1))))
            } else {
                None
            }
        },
        None => None,
    }
}

/// The prefix of a commit summary and the rest of it.
pub fn git_summary_parts(row: &Json, value: &str) -> (parts: Option<(String, String)>)
    ensures
        match parts {
            Some((prefix, content)) => git_parts(row@, value@) == Some((prefix@, content@)),
            None => git_parts(row@, value@) is None,
        },
{
    let oid = chars_of(row::text(row, "git_oid"));
    if oid.len() == 0 {
        return None;
    }
    let text = chars_of(value);
    let mut colon: usize = 0;
    while colon < text.len() && text[colon] != ':'
        invariant
            colon <= text@.len(),
            text@ == value@,
            place_of(value@, ':', 0) == place_of(value@, ':', colon as int),
        decreases text.len() - colon,
    {
        colon = colon + 1;
    }
    if colon == text.len() {
        return None;
    }
    let head = chars::slice_of(text.as_slice(), 0, colon);
    assert(head@ =~= value@.take(colon as int));
    let prefix = chars::trimmed(head.as_slice());
    if prefix.len() == 0 {
        return None;
    }
    let rest = chars::tail_of(text.as_slice(), colon + 1);
    let content = chars::trimmed_start(rest.as_slice());
    Some((string_of(prefix.as_slice()), string_of(content.as_slice())))
}

/// What the content cell shows of a summary.
#[derive(Debug, PartialEq, Eq)]
pub struct RowSummary {
    /// The prefix of a commit summary, shown as a tag.
    pub git_prefix: Option<String>,
    /// The summary behind the prefix, if there is any.
    pub content: Option<Summary>,
    /// Its plain text.
    pub plain_content: Option<String>,
}

/// The contents of a row summary.
pub ghost struct RowSummaryView {
    pub git_prefix: Option<Seq<char>>,
    pub content: Option<SummaryView>,
    pub plain_content: Option<Seq<char>>,
}

impl View for RowSummary {
    type V = RowSummaryView;

    open spec fn view(&self) -> RowSummaryView {
        RowSummaryView {
            git_prefix: optional_text(self.git_prefix),
            content: match self.content {
                Some(summary) => Some(summary@),
                None => None,
            },
            plain_content: optional_text(self.plain_content),
        }
    }
}

/// A text, or the words that stand for none.
pub open spec fn or_no_summary(text: Seq<char>) -> Seq<char> {
    if text.len() == 0 {
        "(no summary)"@
    } else {
        text
    }
}

/// A text, or the words that stand for none.
pub fn or_none(text: String) -> (out: String)
    ensures
        out@ == or_no_summary(text@),
{
    if chars_of(text.as_str()).len() == 0 {
        "(no summary)".to_owned()
    } else {
        text
    }
}

/// What the content cell shows of a summary.
pub open spec fn row_summary(row: JsonView, display: Seq<char>) -> RowSummaryView {
    match git_parts(row, display) {
        Some((prefix, content)) => RowSummaryView {
            git_prefix: Some(prefix),
            content: if content.len() == 0 {
                None
            } else {
                Some(summary_of(content))
            },
            plain_content: if content.len() == 0 {
                None
            } else {
                Some(or_no_summary(plain_text::plain_summary(content)))
            },
        },
        None => RowSummaryView {
            git_prefix: None,
            content: Some(summary_of(display)),
            plain_content: Some(or_no_summary(plain_text::plain_summary(display))),
        },
    }
}

impl RowSummary {
    /// What the content cell shows of a summary.
    pub fn parse(row: &Json, display: &str) -> (summary: RowSummary)
        ensures
            summary@ == row_summary(row@, display@),
    {
        match git_summary_parts(row, display) {
            Some((prefix, content)) => {
                if chars_of(content.as_str()).len() == 0 {
                    RowSummary { git_prefix: Some(prefix), content: None, plain_content: None }
                } else {
                    RowSummary {
                        git_prefix: Some(prefix),
                        content: Some(Summary::parse(content.as_str())),
                        plain_content: Some(or_none(markdown_plain_summary(content.as_str()))),
                    }
                }
            },
            None => RowSummary {
                git_prefix: None,
                content: Some(Summary::parse(display)),
                plain_content: Some(or_none(markdown_plain_summary(display))),
            },
        }
    }
}

/// The plain text of a row's summary, with a blank for the colon of a commit
/// prefix.
pub open spec fn plain_row(row: JsonView, value: Seq<char>) -> Seq<char> {
    match git_parts(row, value) {
        Some((prefix, content)) => plain_text::plain_summary(
            if content.len() == 0 {
                prefix
            } else {
                prefix + " "@ + content
            },
        ),
        None => plain_text::plain_summary(value),
    }
}

/// The plain text of a row's summary.
pub fn plain_row_summary(row: &Json, value: &str) -> (out: String)
    ensures
        out@ == plain_row(row@, value@),
{
    match git_summary_parts(row, value) {
        Some((prefix, content)) => {
            if chars_of(content.as_str()).len() == 0 {
                markdown_plain_summary(prefix.as_str())
            } else {
                let mut combined = prefix.clone();
                combined.append(" ");
                combined.append(content.as_str());
                markdown_plain_summary(combined.as_str())
            }
        },
        None => markdown_plain_summary(value),
    }
}

/// A heading is shown with its level, without the number signs and the white space behind
/// its text.
pub proof fn headings_are_shown_with_their_level(line: Seq<char>, marks: int, at: int, end: int)
    requires
        plain_text::heading(line) == Some((marks, at)),
        0 <= at < end <= line.len(),
        !chars::white(line[end - 1]),
        line[end - 1] != '#',
        forall|i: int| end <= i < line.len() ==> chars::white(#[trigger] line[i]) || line[i] == '#',
    ensures
        heading_line(line) == Some(
            LineView {
                kind: KindView::Heading { level: marks },
                inline: markdown::inline(line.subrange(at, end), 0),
            },
        ),
{
    let text = line.skip(at);
    lemma_tail(text, end - at);
    assert(text.take(end - at) =~= line.subrange(at, end));
}

proof fn lemma_tail(text: Seq<char>, end: int)
    requires
        0 < end <= text.len(),
        !chars::white(text[end - 1]),
        text[end - 1] != '#',
        forall|i: int| end <= i < text.len() ==> chars::white(#[trigger] text[i]) || text[i] == '#',
    ensures
        without_tail(text) == text.take(end),
    decreases text.len(),
{
    if text.len() > end {
        let shorter = text.drop_last();
        assert(chars::white(text[text.len() - 1]) || text[text.len() - 1] == '#');
        assert forall|i: int| end <= i < shorter.len() implies chars::white(#[trigger] shorter[i])
            || shorter[i] == '#' by {
            assert(shorter[i] == text[i]);
        }
        lemma_tail(shorter, end);
        assert(shorter.take(end) =~= text.take(end));
    } else {
        assert(text.take(end) =~= text);
    }
}

/// What a line is, is decided in order: a heading before a task, a task before a list
/// item, that before a numbered item, that before a quote, and that before a fence. A line
/// that is none of these is plain, and so is a blank one.
pub proof fn lines_are_told_apart_in_order(value: Seq<char>)
    ensures
        ({
            let line = chars::trim(value);
            let shown = source_line(value);
            let heading = heading_line(line);
            let task = task_line(line);
            let list = list_line(line);
            let ordered = ordered_line(line);
            let quote = quote_line(line);
            let fence = fence_line(line);
            &&& line.len() == 0 ==> shown.kind is Plain && shown.inline.len() == 0
            &&& line.len() > 0 && heading is Some ==> Some(shown) == heading
            &&& line.len() > 0 && heading is None && task is Some ==> Some(shown) == task
            &&& line.len() > 0 && heading is None && task is None && list is Some ==> Some(shown)
                == list
            &&& line.len() > 0 && heading is None && task is None && list is None && ordered is Some
                ==> Some(shown) == ordered
            &&& line.len() > 0 && heading is None && task is None && list is None && ordered is None
                && quote is Some ==> Some(shown) == quote
            &&& line.len() > 0 && heading is None && task is None && list is None && ordered is None
                && quote is None && fence is Some ==> Some(shown) == fence
            &&& line.len() > 0 && heading is None && task is None && list is None && ordered is None
                && quote is None && fence is None ==> shown.kind is Plain && shown.inline
                == markdown::inline(line, 0)
        }),
{
}

/// A line that is a task, an item, a quote or a fence is shown as such with the text behind
/// its mark: a task with its box, a numbered item with its number, a quote with its
/// callout, and a fence with its language.
pub proof fn lines_are_shown_with_their_marks(line: Seq<char>)
    ensures
        plain_text::task(line) matches Some((done, at)) ==> at < line.len() ==> task_line(line)
            == Some(
            LineView { kind: KindView::Task { done }, inline: markdown::inline(line.skip(at), 0) },
        ),
        plain_text::list_item(line) matches Some(at) ==> at < line.len() ==> list_line(line) == Some(
            LineView { kind: KindView::Unordered, inline: markdown::inline(line.skip(at), 0) },
        ),
        plain_text::ordered_item(line) matches Some((mark, at)) ==> at < line.len() ==> ordered_line(
            line,
        ) == Some(
            LineView {
                kind: KindView::Ordered { marker: line.take(mark) },
                inline: markdown::inline(line.skip(at), 0),
            },
        ),
        plain_text::quote(line) matches Some(at) ==> at < line.len() && plain_text::callout(
            line.skip(at),
        ) is None ==> quote_line(line) == Some(
            LineView {
                kind: KindView::Quote { callout: None },
                inline: markdown::inline(line.skip(at), 0),
            },
        ),
        plain_text::quote(line) matches Some(at) ==> (plain_text::callout(line.skip(at)) matches Some(
            (name_end, start),
        ) ==> at < line.len() ==> quote_line(line) == Some(
            LineView {
                kind: KindView::Quote { callout: Some(line.skip(at).subrange(2, name_end)) },
                inline: markdown::inline(line.skip(at).skip(start), 0),
            },
        )),
        plain_text::fence(line) matches Some((name, name_end, at)) ==> fence_line(line) == Some(
            LineView {
                kind: KindView::Fence { language: line.subrange(name, name_end) },
                inline: markdown::inline(line.skip(at), 0),
            },
        ),
{
}

proof fn lemma_telling(lines: Seq<Seq<char>>, n: int)
    requires
        0 <= n <= lines.len(),
    ensures
        telling_lines(lines, n) == lines.take(n).map_values(
            |line: Seq<char>| chars::trim(line),
        ).filter(|line: Seq<char>| says_something(line)),
    decreases n,
{
    let trimmed = |line: Seq<char>| chars::trim(line);
    let says = |line: Seq<char>| says_something(line);
    if n > 0 {
        lemma_telling(lines, n - 1);
        let head = lines.take(n - 1);
        assert(lines.take(n).map_values(trimmed) =~= head.map_values(trimmed).push(
            chars::trim(lines[n - 1]),
        ));
        head.map_values(trimmed).lemma_filter_push(chars::trim(lines[n - 1]), says);
    } else {
        reveal(Seq::filter);
        assert(lines.take(0).map_values(trimmed) =~= Seq::empty());
    }
}

/// A summary shows the first line that says something and counts those behind it; without
/// such a line it is empty.
pub proof fn summaries_show_the_first_line(value: Seq<char>)
    ensures
        ({
            let telling = chars::lines(value).map_values(
                |line: Seq<char>| chars::trim(line),
            ).filter(|line: Seq<char>| says_something(line));
            let shown = summary_of(value);
            &&& telling.len() == 0 ==> shown.line.kind is Empty && shown.line.inline.len() == 0
                && shown.more == 0
            &&& telling.len() > 0 ==> shown.line == source_line(telling[0]) && shown.more
                == telling.len() - 1
        }),
{
    let lines = chars::lines(value);
    lemma_telling(lines, lines.len() as int);
    assert(lines.take(lines.len() as int) =~= lines);
}

proof fn lemma_place(text: Seq<char>, c: char, from: int, at: int)
    requires
        0 <= from <= at <= text.len(),
        forall|i: int| from <= i < at ==> #[trigger] text[i] != c,
        at < text.len() ==> text[at] == c,
    ensures
        place_of(text, c, from) == (if at < text.len() {
            Some(at)
        } else {
            None
        }),
    decreases at - from,
{
    if from < at {
        assert(text[from] != c);
        lemma_place(text, c, from + 1, at);
    }
}

/// The summary of a commit is cut at its first colon where something stands before it.
/// Other rows, and commits without a colon, are not cut.
pub proof fn commits_are_cut_at_their_colon(row: JsonView, value: Seq<char>, colon: int)
    requires
        0 <= colon <= value.len(),
        forall|i: int| 0 <= i < colon ==> #[trigger] value[i] != ':',
        colon < value.len() ==> value[colon] == ':',
    ensures
        ({
            let commit = row::text_of(row, "git_oid"@).len() > 0;
            let prefix = chars::trim(value.take(colon));
            &&& commit && colon < value.len() && prefix.len() > 0 ==> git_parts(row, value) == Some(
                (prefix, chars::trim_start(value.skip(colon + 1))),
            )
            &&& !commit || colon == value.len() || prefix.len() == 0 ==> git_parts(
                row,
                value,
            ) is None
        }),
{
    lemma_place(value, ':', 0, colon);
}

/// A commit shows its prefix, and behind it the summary of the rest where there is any;
/// any other row shows the summary of its whole text. Where nothing is said in plain
/// text, that is said.
pub proof fn rows_show_their_summary(row: JsonView, display: Seq<char>)
    ensures
        ({
            let shown = row_summary(row, display);
            match git_parts(row, display) {
                Some((prefix, content)) => {
                    &&& shown.git_prefix == Some(prefix)
                    &&& content.len() == 0 ==> shown.content is None && shown.plain_content is None
                    &&& content.len() > 0 ==> shown.content == Some(summary_of(content))
                    &&& content.len() > 0 && plain_text::plain_summary(content).len() > 0
                        ==> shown.plain_content == Some(plain_text::plain_summary(content))
                    &&& content.len() > 0 && plain_text::plain_summary(content).len() == 0
                        ==> shown.plain_content == Some("(no summary)"@)
                    &&& content.len() == 0 ==> plain_row(row, display) == plain_text::plain_summary(
                        prefix,
                    )
                    &&& content.len() > 0 ==> plain_row(row, display) == plain_text::plain_summary(
                        prefix + " "@ + content,
                    )
                },
                None => {
                    &&& shown.git_prefix is None
                    &&& shown.content == Some(summary_of(display))
                    &&& plain_text::plain_summary(display).len() > 0 ==> shown.plain_content == Some(
                        plain_text::plain_summary(display),
                    )
                    &&& plain_text::plain_summary(display).len() == 0 ==> shown.plain_content == Some(
                        "(no summary)"@,
                    )
                    &&& plain_row(row, display) == plain_text::plain_summary(display)
                },
            }
        }),
{
}

} // verus!
