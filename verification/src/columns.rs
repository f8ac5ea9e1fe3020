//! The columns of the list and their widths.

use crate::text::{self, decimal_text, same_text};
use vstd::prelude::*;

verus! {

/// At this window width, in CSS pixels, and below it the date column is hidden.
pub const HIDE_DATE_MAX: u32 = 400;

/// A resizable column.
#[derive(Debug, Clone, Copy, PartialEq, Eq, Structural)]
pub enum ColKey {
    Graph,
    Content,
    Date,
    Author,
    Commit,
}

/// The name of a column in class names, variables, and attributes.
pub open spec fn column_name(col: ColKey) -> Seq<char> {
    match col {
        ColKey::Graph => "graph"@,
        ColKey::Content => "content"@,
        ColKey::Date => "date"@,
        ColKey::Author => "author"@,
        ColKey::Commit => "commit"@,
    }
}

/// The smallest width of a column, in CSS pixels.
pub open spec fn least_width(col: ColKey) -> u32 {
    match col {
        ColKey::Graph => 40,
        ColKey::Content | ColKey::Author | ColKey::Commit => 60,
        ColKey::Date => 90,
    }
}

/// The width of a fixed column that was not dragged, in CSS pixels.
pub open spec fn natural_width(col: ColKey) -> u32 {
    match col {
        ColKey::Graph | ColKey::Content => 0,
        ColKey::Date => 140,
        ColKey::Author | ColKey::Commit => 100,
    }
}

impl ColKey {
    pub fn as_str(self) -> (name: &'static str)
        ensures
            name@ == column_name(self),
    {
        match self {
            ColKey::Graph => "graph",
            ColKey::Content => "content",
            ColKey::Date => "date",
            ColKey::Author => "author",
            ColKey::Commit => "commit",
        }
    }

    /// The column that a name stands for.
    pub fn parse(value: &str) -> (col: Option<ColKey>)
        ensures
            match col {
                Some(col) => column_name(col) == value@,
                None => forall|col: ColKey| #[trigger] column_name(col) != value@,
            },
    {
        if same_text(value, "graph") {
            Some(ColKey::Graph)
        } else if same_text(value, "content") {
            Some(ColKey::Content)
        } else if same_text(value, "date") {
            Some(ColKey::Date)
        } else if same_text(value, "author") {
            Some(ColKey::Author)
        } else if same_text(value, "commit") {
            Some(ColKey::Commit)
        } else {
            None
        }
    }

    pub fn min_width(self) -> (width: u32)
        ensures
            width == least_width(self),
    {
        match self {
            ColKey::Graph => 40,
            ColKey::Content | ColKey::Author | ColKey::Commit => 60,
            ColKey::Date => 90,
        }
    }

    pub fn default_width(self) -> (width: u32)
        ensures
            width == natural_width(self),
    {
        match self {
            ColKey::Graph | ColKey::Content => 0,
            ColKey::Date => 140,
            ColKey::Author | ColKey::Commit => 100,
        }
    }
}

/// No two columns share a name, so that a parsed name gives its column back.
pub proof fn column_names_differ(a: ColKey, b: ColKey)
    ensures
        column_name(a) == column_name(b) ==> a == b,
{
    reveal_strlit("graph");
    reveal_strlit("content");
    reveal_strlit("date");
    reveal_strlit("author");
    reveal_strlit("commit");
    assert("graph"@[0] == 'g' && "content"@[0] == 'c' && "date"@[0] == 'd' && "author"@[0] == 'a'
        && "commit"@[0] == 'c');
    assert("content"@.len() == 7 && "commit"@.len() == 6);
}

/// The widths that columns were dragged to; the others are natural.
#[derive(Debug, Clone)]
pub struct ColWidths<W> {
    pub graph: Option<W>,
    pub content: Option<W>,
    pub date: Option<W>,
    pub author: Option<W>,
    pub commit: Option<W>,
}

impl<W> ColWidths<W> {
    /// The width that a column was dragged to.
    pub open spec fn dragged(self, col: ColKey) -> Option<W> {
        match col {
            ColKey::Graph => self.graph,
            ColKey::Content => self.content,
            ColKey::Date => self.date,
            ColKey::Author => self.author,
            ColKey::Commit => self.commit,
        }
    }

    pub fn new() -> (widths: ColWidths<W>)
        ensures
            forall|col: ColKey| (#[trigger] widths.dragged(col)) is None,
    {
        ColWidths { graph: None, content: None, date: None, author: None, commit: None }
    }

    /// The width that a column was dragged to.
    pub fn get(&self, col: ColKey) -> (width: Option<&W>)
        ensures
            match width {
                Some(width) => self.dragged(col) == Some(*width),
                None => self.dragged(col) is None,
            },
    {
        match col {
            ColKey::Graph => self.graph.as_ref(),
            ColKey::Content => self.content.as_ref(),
            ColKey::Date => self.date.as_ref(),
            ColKey::Author => self.author.as_ref(),
            ColKey::Commit => self.commit.as_ref(),
        }
    }

    /// Keeps the width that a column was dragged to, or forgets it.
    pub fn set(&mut self, col: ColKey, width: Option<W>)
        ensures
            final(self).dragged(col) == width,
            forall|other: ColKey|
                other != col ==> #[trigger] final(self).dragged(other) == old(self).dragged(other),
    {
        match col {
            ColKey::Graph => {
                self.graph = width;
            },
            ColKey::Content => {
                self.content = width;
            },
            ColKey::Date => {
                self.date = width;
            },
            ColKey::Author => {
                self.author = width;
            },
            ColKey::Commit => {
                self.commit = width;
            },
        }
    }
}

impl<W> Default for ColWidths<W> {
    fn default() -> (widths: ColWidths<W>)
        ensures
            forall|col: ColKey| (#[trigger] widths.dragged(col)) is None,
    {
        ColWidths::new()
    }
}

/// The hidden columns at a window width.
pub open spec fn hidden(window_width: u32) -> Seq<ColKey> {
    if window_width <= HIDE_DATE_MAX {
        seq![ColKey::Author, ColKey::Commit, ColKey::Date]
    } else {
        seq![ColKey::Author, ColKey::Commit]
    }
}

/// The hidden columns at a window width in CSS pixels, rounded up: author and
/// commit always, the date in a narrow window.
pub fn hidden_columns(window_width: u32) -> (columns: Vec<ColKey>)
    ensures
        columns@ == hidden(window_width),
{
    let mut columns: Vec<ColKey> = Vec::new();
    columns.push(ColKey::Author);
    columns.push(ColKey::Commit);
    if window_width <= HIDE_DATE_MAX {
        columns.push(ColKey::Date);
    }
    assert(columns@ =~= hidden(window_width));
    columns
}

/// The columns that can be resized at a window width.
pub open spec fn resizable(window_width: u32) -> Seq<ColKey> {
    if window_width <= HIDE_DATE_MAX {
        seq![ColKey::Graph, ColKey::Content]
    } else {
        seq![ColKey::Graph, ColKey::Content, ColKey::Date]
    }
}

/// A column can be resized exactly where it is shown.
pub proof fn shown_columns_can_be_resized(window_width: u32, col: ColKey)
    ensures
        resizable(window_width).contains(col) <==> !hidden(window_width).contains(col),
{
    let columns = resizable(window_width);
    let out = hidden(window_width);
    assert(columns[0] == ColKey::Graph);
    assert(columns[1] == ColKey::Content);
    assert(out[0] == ColKey::Author);
    assert(out[1] == ColKey::Commit);
    if window_width <= HIDE_DATE_MAX {
        assert(out[2] == ColKey::Date);
    } else {
        assert(columns[2] == ColKey::Date);
    }
}

/// The columns that can be resized at a window width in CSS pixels, rounded up.
pub fn resizable_columns(window_width: u32) -> (columns: Vec<ColKey>)
    ensures
        columns@ == resizable(window_width),
{
    let mut columns: Vec<ColKey> = Vec::new();
    columns.push(ColKey::Graph);
    columns.push(ColKey::Content);
    if window_width > HIDE_DATE_MAX {
        columns.push(ColKey::Date);
    }
    columns
}

/// A column that can be resized is not hidden.
pub proof fn resizable_columns_are_shown(window_width: u32, col: ColKey)
    requires
        col == ColKey::Graph || col == ColKey::Content || (col == ColKey::Date && window_width
            > HIDE_DATE_MAX),
    ensures
        !hidden(window_width).contains(col),
{
}

/// One column variable of the inline style.
pub open spec fn width_rule(name: Seq<char>, width: Seq<char>) -> Seq<char> {
    "--"@ + name + "-w:"@ + width + "px"@
}

/// The width of the date column as text.
pub open spec fn date_text(widths: ColWidths<String>) -> Seq<char> {
    match widths.date {
        Some(width) => width@,
        None => text::decimal(natural_width(ColKey::Date) as nat),
    }
}

/// The inline style of the columns: the graph, the content where it was dragged,
/// and the date where it is shown.
pub open spec fn style(
    graph_width: Seq<char>,
    window_width: u32,
    widths: ColWidths<String>,
) -> Seq<char> {
    width_rule("graph"@, graph_width) + match widths.content {
        Some(content) => ";"@ + width_rule("content"@, content@),
        None => Seq::empty(),
    } + if window_width <= HIDE_DATE_MAX {
        Seq::empty()
    } else {
        ";"@ + width_rule("date"@, date_text(widths))
    }
}

fn append_rule(out: &mut String, name: &str, width: &str)
    ensures
        final(out)@ == old(out)@ + width_rule(name@, width@),
{
    let ghost before = out@;
    out.append("--");
    out.append(name);
    out.append("-w:");
    out.append(width);
    out.append("px");
    assert(out@ =~= before + width_rule(name@, width@));
}

/// The inline style of the columns. The widths are spelled by the caller; the
/// window width is in CSS pixels, rounded up.
pub fn col_style(graph_width: &str, window_width: u32, widths: &ColWidths<String>) -> (out: String)
    ensures
        out@ == style(graph_width@, window_width, *widths),
{
    let mut out = String::new();
    append_rule(&mut out, "graph", graph_width);
    assert(out@ =~= width_rule("graph"@, graph_width@));
    match &widths.content {
        Some(content) => {
            out.append(";");
            append_rule(&mut out, "content", content.as_str());
        },
        None => {},
    }
    if window_width > HIDE_DATE_MAX {
        out.append(";");
        match &widths.date {
            Some(date) => {
                append_rule(&mut out, "date", date.as_str());
            },
            None => {
                let natural = decimal_text(ColKey::Date.default_width() as u64);
                append_rule(&mut out, "date", natural.as_str());
            },
        }
    }
    assert(out@ =~= style(graph_width@, window_width, *widths));
    out
}

/// The author and the commit are never shown, the graph and the content always, and the
/// date in windows of more than four hundred pixels.
pub proof fn narrow_windows_hide_the_date(window_width: u32)
    ensures
        hidden(window_width).contains(ColKey::Author),
        hidden(window_width).contains(ColKey::Commit),
        !hidden(window_width).contains(ColKey::Graph),
        !hidden(window_width).contains(ColKey::Content),
        hidden(window_width).contains(ColKey::Date) <==> window_width <= 400,
        hidden(window_width).no_duplicates(),
{
    let columns = hidden(window_width);
    assert(columns[0] == ColKey::Author);
    assert(columns[1] == ColKey::Commit);
    if window_width <= HIDE_DATE_MAX {
        assert(columns[2] == ColKey::Date);
    }
}

/// Where the columns are fixed in width, the width is at least the smallest one.
pub proof fn natural_widths_are_wide_enough(col: ColKey)
    ensures
        natural_width(col) > 0 ==> natural_width(col) >= least_width(col),
        natural_width(col) == 0 <==> col == ColKey::Graph || col == ColKey::Content,
        least_width(ColKey::Graph) < least_width(ColKey::Content),
        least_width(ColKey::Content) == least_width(ColKey::Author),
        least_width(ColKey::Author) == least_width(ColKey::Commit),
        least_width(ColKey::Commit) < least_width(ColKey::Date),
        least_width(col) <= 90,
        least_width(col) >= 40,
        natural_width(col) <= 140,
{
}

/// The style names the graph width first, then the content width where the column was
/// dragged, then the date width where the date is shown, and nothing else.
pub proof fn styles_name_the_shown_columns(
    graph_width: Seq<char>,
    window_width: u32,
    widths: ColWidths<String>,
)
    ensures
        ({
            let rule = |name: Seq<char>, width: Seq<char>| "--"@ + name + "-w:"@ + width + "px"@;
            let graph = rule("graph"@, graph_width);
            let narrow = match widths.content {
                Some(content) => graph + ";"@ + rule("content"@, content@),
                None => graph,
            };
            &&& window_width <= 400 ==> style(graph_width, window_width, widths) =~= narrow
            &&& window_width > 400 && widths.date is Some ==> style(graph_width, window_width, widths)
                =~= narrow + ";"@ + rule("date"@, widths.date->0@)
            &&& window_width > 400 && widths.date is None ==> style(graph_width, window_width, widths)
                =~= narrow + ";"@ + rule("date"@, text::decimal(140))
        }),
{
}

} // verus!
