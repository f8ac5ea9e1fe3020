//! The plain text of Markdown fragments, lines, and summaries.

use crate::chars;
use crate::text::{chars_of, string_of};
use vstd::prelude::*;

verus! {

/// Punctuation that a backslash can escape.
pub open spec fn escapable(c: char) -> bool {
    ||| c == '\\'
    ||| c == '`'
    ||| c == '*'
    ||| c == '_'
    ||| c == '['
    ||| c == ']'
    ||| c == '{'
    ||| c == '}'
    ||| c == '('
    ||| c == ')'
    ||| c == '#'
    ||| c == '+'
    ||| c == '-'
    ||| c == '.'
    ||| c == '!'
    ||| c == '~'
    ||| c == '>'
}

pub fn is_escapable(c: char) -> (yes: bool)
    ensures
        yes == escapable(c),
{
    matches!(
        c,
        '\\' | '`' | '*' | '_' | '[' | ']' | '{' | '}' | '(' | ')' | '#' | '+' | '-' | '.' | '!' | '~'
            | '>'
    )
}

/// What may stand before an emphasised word.
pub open spec fn opens_word(c: char) -> bool {
    ||| chars::white(c)
    ||| c == '('
    ||| c == '['
    ||| c == '{'
    ||| c == '<'
    ||| c == ':'
    ||| c == ';'
    ||| c == ','
    ||| c == '.'
    ||| c == '!'
    ||| c == '?'
    ||| c == '-'
}

pub fn is_boundary_before(c: char) -> (yes: bool)
    ensures
        yes == opens_word(c),
{
    chars::is_white(c) || matches!(
        c,
        '(' | '[' | '{' | '<' | ':' | ';' | ',' | '.' | '!' | '?' | '-'
    )
}

/// What may stand behind an emphasised word.
pub open spec fn closes_word(c: char) -> bool {
    ||| chars::white(c)
    ||| c == ')'
    ||| c == ']'
    ||| c == '}'
    ||| c == '>'
    ||| c == ':'
    ||| c == ';'
    ||| c == ','
    ||| c == '.'
    ||| c == '!'
    ||| c == '?'
    ||| c == '-'
}

pub fn is_boundary_after(c: char) -> (yes: bool)
    ensures
        yes == closes_word(c),
{
    chars::is_white(c) || matches!(
        c,
        ')' | ']' | '}' | '>' | ':' | ';' | ',' | '.' | '!' | '?' | '-'
    )
}

/// Decoration that gives way to the text inside it.
#[derive(Debug, Clone, Copy, PartialEq, Eq, Structural)]
pub enum Rule {
    /// A backslash before punctuation: the punctuation stays.
    Escape,
    /// `![label](target)`: the label stays; it may be empty.
    Image,
    /// `[label](target)`: the label stays; it is not empty.
    Link,
    /// Text between two runs of backticks: the text stays.
    Code,
    /// Text between two doubled marks: the text stays.
    Pair(char),
    /// A word between two single marks: the word stays.
    Emphasis(char),
    /// An HTML tag: nothing stays.
    Tag,
    /// A run of two or more stars or tildes, or of backticks: nothing stays.
    Run,
}

/// Decoration found in a text: `from` to `to` stays, and the text goes on at `end`.
#[derive(Debug, Clone, Copy, PartialEq, Eq, Structural)]
pub struct Found {
    pub from: usize,
    pub to: usize,
    pub end: usize,
}

/// The character at a place, if there is one.
pub open spec fn holds(text: Seq<char>, at: int, c: char) -> bool {
    0 <= at < text.len() && text[at] == c
}

/// The parts of a bracketed label with a target in parentheses, where the
/// bracket opens at `open`: the end of the label and that of the whole.
pub open spec fn bracketed(text: Seq<char>, open: int) -> Option<(int, int)> {
    let label_end = chars::next_of(text, open + 1, ']', '\n');
    let target_end = chars::next_of(text, label_end + 2, ')', '\n');
    if holds(text, open, '[') && holds(text, label_end, ']') && holds(text, label_end + 1, '(')
        && holds(text, target_end, ')') {
        Some((label_end, target_end + 1))
    } else {
        None
    }
}

/// The decoration of a kind that starts at a place: what stays and where the
/// text goes on.
pub open spec fn found(rule: Rule, text: Seq<char>, at: int) -> Option<(int, int, int)> {
    match rule {
        Rule::Escape => if holds(text, at, '\\') && at + 1 < text.len() && escapable(
            text[at + 1],
        ) {
            Some((at + 1, at + 2, at + 2))
        } else {
            None
        },
        Rule::Image => match bracketed(text, at + 1) {
            Some((label_end, end)) => if holds(text, at, '!') {
                Some((at + 2, label_end, end))
            } else {
                None
            },
            None => None,
        },
        Rule::Link => match bracketed(text, at) {
            Some((label_end, end)) => if label_end > at + 1 {
                Some((at + 1, label_end, end))
            } else {
                None
            },
            None => None,
        },
        Rule::Code => {
            let open = chars::run_end(text, at, '`');
            let close = chars::next_of(text, open, '`', '\n');
            if holds(text, at, '`') && holds(text, close, '`') {
                Some((open, close, chars::run_end(text, close, '`')))
            } else {
                None
            }
        },
        Rule::Pair(mark) => {
            let close = chars::next_of(text, at + 2, mark, '\n');
            if holds(text, at, mark) && holds(text, at + 1, mark) && close > at + 2 && holds(
                text,
                close,
                mark,
            ) && holds(text, close + 1, mark) && mark != '\n' {
                Some((at + 2, close, close + 2))
            } else {
                None
            }
        },
        Rule::Emphasis(mark) => {
            let close = chars::next_of(text, at + 1, mark, '\n');
            if holds(text, at, mark) && (at == 0 || opens_word(text[at - 1])) && close > at + 1
                && !chars::white(text[at + 1]) && holds(text, close, mark) && (close + 1
                == text.len() || closes_word(text[close + 1])) && mark != '\n' {
                Some((at + 1, close, close + 1))
            } else {
                None
            }
        },
        Rule::Tag => {
            let name = if holds(text, at + 1, '/') {
                at + 2
            } else {
                at + 1
            };
            let close = chars::next_of(text, name + 1, '>', '\n');
            if holds(text, at, '<') && name < text.len() && chars::letter(text[name]) && holds(
                text,
                close,
                '>',
            ) {
                Some((at, at, close + 1))
            } else {
                None
            }
        },
        Rule::Run => {
            let end = chars::run_end(text, at, text[at]);
            if text[at] == '`' || ((text[at] == '*' || text[at] == '~') && end >= at + 2) {
                Some((at, at, end))
            } else {
                None
            }
        },
    }
}

proof fn next_of_is_in_range(text: Seq<char>, from: int, a: char, b: char)
    requires
        0 <= from <= text.len(),
    ensures
        from <= chars::next_of(text, from, a, b) <= text.len(),
    decreases text.len() - from,
{
    if from < text.len() && text[from] != a && text[from] != b {
        next_of_is_in_range(text, from + 1, a, b);
    }
}

proof fn run_end_is_in_range(text: Seq<char>, from: int, c: char)
    requires
        0 <= from <= text.len(),
    ensures
        from <= chars::run_end(text, from, c) <= text.len(),
        holds(text, from, c) ==> chars::run_end(text, from, c) > from,
    decreases text.len() - from,
{
    if from < text.len() && text[from] == c {
        run_end_is_in_range(text, from + 1, c);
    }
}

/// Decoration lies within the text and takes up at least one character.
proof fn found_is_in_range(rule: Rule, text: Seq<char>, at: int)
    requires
        0 <= at < text.len(),
    ensures
        found(rule, text, at) matches Some((from, to, end)) ==> at <= from <= to <= end
            && at < end <= text.len(),
{
    match rule {
        Rule::Escape => {},
        Rule::Image => {
            if at + 2 <= text.len() {
                next_of_is_in_range(text, at + 2, ']', '\n');
                let label_end = chars::next_of(text, at + 2, ']', '\n');
                if label_end + 2 <= text.len() {
                    next_of_is_in_range(text, label_end + 2, ')', '\n');
                }
            }
        },
        Rule::Link => {
            next_of_is_in_range(text, at + 1, ']', '\n');
            let label_end = chars::next_of(text, at + 1, ']', '\n');
            if label_end + 2 <= text.len() {
                next_of_is_in_range(text, label_end + 2, ')', '\n');
            }
        },
        Rule::Code => {
            run_end_is_in_range(text, at, '`');
            let open = chars::run_end(text, at, '`');
            next_of_is_in_range(text, open, '`', '\n');
            run_end_is_in_range(text, chars::next_of(text, open, '`', '\n'), '`');
        },
        Rule::Pair(mark) => {
            if at + 2 <= text.len() {
                next_of_is_in_range(text, at + 2, mark, '\n');
            }
        },
        Rule::Emphasis(mark) => {
            next_of_is_in_range(text, at + 1, mark, '\n');
        },
        Rule::Tag => {
            let name = if holds(text, at + 1, '/') {
                at + 2
            } else {
                at + 1
            };
            if name < text.len() {
                next_of_is_in_range(text, name + 1, '>', '\n');
            }
        },
        Rule::Run => {
            run_end_is_in_range(text, at, text[at]);
        },
    }
}

/// The text from a place on, with all decoration of a kind gone.
pub open spec fn undecorated(rule: Rule, text: Seq<char>, at: int) -> Seq<char>
    decreases text.len() - at,
{
    if at < 0 || at >= text.len() {
        Seq::empty()
    } else {
        match found(rule, text, at) {
            Some((from, to, end)) => if at < end <= text.len() {
                text.subrange(from, to) + undecorated(rule, text, end)
            } else {
                Seq::empty()
            },
            None => seq![text[at]] + undecorated(rule, text, at + 1),
        }
    }
}

fn char_is(text: &[char], at: usize, c: char) -> (yes: bool)
    ensures
        yes == holds(text@, at as int, c),
{
    at < text.len() && text[at] == c
}

/// The end of the label and that of the whole of a bracketed label with a target.
pub fn find_bracketed(text: &[char], open: usize) -> (parts: Option<(usize, usize)>)
    requires
        open <= text@.len(),
    ensures
        match parts {
            Some((label_end, end)) => bracketed(text@, open as int) == Some(
                (label_end as int, end as int),
            ) && open < label_end && label_end + 2 < end <= text@.len(),
            None => bracketed(text@, open as int) is None,
        },
{
    let n: usize = text.len();
    if open >= n || !char_is(text, open, '[') {
        return None;
    }
    let label_end: usize = find_next(text, open + 1, ']', '\n');
    if !char_is(text, label_end, ']') || !char_is(text, label_end + 1, '(') {
        return None;
    }
    let target_end: usize = find_next(text, label_end + 2, ')', '\n');
    if !char_is(text, target_end, ')') {
        return None;
    }
    Some((label_end, target_end + 1))
}

fn find_next(text: &[char], from: usize, a: char, b: char) -> (at: usize)
    requires
        from <= text@.len(),
    ensures
        at == chars::next_of(text@, from as int, a, b),
        from <= at <= text@.len(),
{
    chars::find_next(text, from, a, b)
}

/// The decoration of a kind that starts at a place.
fn find_at(rule: Rule, text: &[char], at: usize) -> (decoration: Option<Found>)
    requires
        at < text@.len(),
    ensures
        match decoration {
            Some(f) => found(rule, text@, at as int) == Some(
                (f.from as int, f.to as int, f.end as int),
            ),
            None => found(rule, text@, at as int) is None,
        },
{
    let n: usize = text.len();
    match rule {
        Rule::Escape => {
            if char_is(text, at, '\\') && at + 1 < n && is_escapable(text[at + 1]) {
                Some(Found { from: at + 1, to: at + 2, end: at + 2 })
            } else {
                None
            }
        },
        Rule::Image => {
            if !char_is(text, at, '!') {
                return None;
            }
            match find_bracketed(text, at + 1) {
                Some((label_end, end)) => Some(Found { from: at + 2, to: label_end, end }),
                None => None,
            }
        },
        Rule::Link => {
            match find_bracketed(text, at) {
                Some((label_end, end)) => if label_end > at + 1 {
                    Some(Found { from: at + 1, to: label_end, end })
                } else {
                    None
                },
                None => None,
            }
        },
        Rule::Code => {
            if !char_is(text, at, '`') {
                return None;
            }
            let open: usize = chars::end_of_run(text, at, '`');
            let close: usize = find_next(text, open, '`', '\n');
            if char_is(text, close, '`') {
                Some(Found { from: open, to: close, end: chars::end_of_run(text, close, '`') })
            } else {
                None
            }
        },
        Rule::Pair(mark) => {
            if mark == '\n' || !char_is(text, at, mark) || !char_is(text, at + 1, mark) {
                return None;
            }
            let close: usize = find_next(text, at + 2, mark, '\n');
            if close > at + 2 && char_is(text, close, mark) && char_is(text, close + 1, mark) {
                Some(Found { from: at + 2, to: close, end: close + 2 })
            } else {
                None
            }
        },
        Rule::Emphasis(mark) => {
            if mark == '\n' || !char_is(text, at, mark) || !(at == 0 || is_boundary_before(
                text[at - 1],
            )) {
                return None;
            }
            let close: usize = find_next(text, at + 1, mark, '\n');
            if close > at + 1 && !chars::is_white(text[at + 1]) && char_is(text, close, mark) && (
            close + 1 == text.len() || is_boundary_after(text[close + 1])) {
                Some(Found { from: at + 1, to: close, end: close + 1 })
            } else {
                None
            }
        },
        Rule::Tag => {
            if !char_is(text, at, '<') {
                return None;
            }
            let name: usize = if char_is(text, at + 1, '/') {
                at + 2
            } else {
                at + 1
            };
            if name >= text.len() || !chars::is_letter(text[name]) {
                return None;
            }
            let close: usize = find_next(text, name + 1, '>', '\n');
            if char_is(text, close, '>') {
                Some(Found { from: at, to: at, end: close + 1 })
            } else {
                None
            }
        },
        Rule::Run => {
            let c: char = text[at];
            let end: usize = chars::end_of_run(text, at, c);
            if c == '`' || ((c == '*' || c == '~') && end - at >= 2) {
                Some(Found { from: at, to: at, end })
            } else {
                None
            }
        },
    }
}

/// The text with all decoration of a kind gone.
pub fn undecorate(rule: Rule, text: &[char]) -> (out: Vec<char>)
    ensures
        out@ == undecorated(rule, text@, 0),
{
    let mut out: Vec<char> = Vec::new();
    let mut at: usize = 0;
    assert(out@ + undecorated(rule, text@, 0) =~= undecorated(rule, text@, 0));
    while at < text.len()
        invariant
            at <= text@.len(),
            out@ + undecorated(rule, text@, at as int) == undecorated(rule, text@, 0),
        decreases text.len() - at,
    {
        proof {
            found_is_in_range(rule, text@, at as int);
        }
        let ghost before = out@;
        match find_at(rule, text, at) {
            Some(f) => {
                let kept = chars::slice_of(text, f.from, f.to);
                chars::extend_chars(&mut out, kept.as_slice());
                assert(out@ + undecorated(rule, text@, f.end as int) =~= before + undecorated(
                    rule,
                    text@,
                    at as int,
                ));
                at = f.end;
            },
            None => {
                out.push(text[at]);
                assert(out@ + undecorated(rule, text@, at + 1) =~= before + undecorated(
                    rule,
                    text@,
                    at as int,
                ));
                at = at + 1;
            },
        }
    }
    assert(undecorated(rule, text@, at as int) =~= Seq::empty());
    assert(out@ =~= out@ + undecorated(rule, text@, at as int));
    out
}

/// The text without any decoration.
pub open spec fn bare(text: Seq<char>) -> Seq<char> {
    let text = undecorated(Rule::Escape, text, 0);
    let text = undecorated(Rule::Image, text, 0);
    let text = undecorated(Rule::Link, text, 0);
    let text = undecorated(Rule::Code, text, 0);
    let text = undecorated(Rule::Pair('*'), text, 0);
    let text = undecorated(Rule::Pair('_'), text, 0);
    let text = undecorated(Rule::Pair('~'), text, 0);
    let text = undecorated(Rule::Emphasis('*'), text, 0);
    let text = undecorated(Rule::Emphasis('_'), text, 0);
    let text = undecorated(Rule::Tag, text, 0);
    undecorated(Rule::Run, text, 0)
}

/// The plain text of a Markdown fragment: its words without decoration.
pub open spec fn plain_inline(text: Seq<char>) -> Seq<char> {
    chars::squeezed(bare(text))
}

/// The plain text of a Markdown fragment.
pub fn plain_inline_chars(text: &[char]) -> (out: Vec<char>)
    ensures
        out@ == plain_inline(text@),
{
    let text = undecorate(Rule::Escape, text);
    let text = undecorate(Rule::Image, text.as_slice());
    let text = undecorate(Rule::Link, text.as_slice());
    let text = undecorate(Rule::Code, text.as_slice());
    let text = undecorate(Rule::Pair('*'), text.as_slice());
    let text = undecorate(Rule::Pair('_'), text.as_slice());
    let text = undecorate(Rule::Pair('~'), text.as_slice());
    let text = undecorate(Rule::Emphasis('*'), text.as_slice());
    let text = undecorate(Rule::Emphasis('_'), text.as_slice());
    let text = undecorate(Rule::Tag, text.as_slice());
    let text = undecorate(Rule::Run, text.as_slice());
    chars::squeeze(text.as_slice())
}

/// The plain text of a Markdown fragment.
pub fn markdown_plain_inline(value: &str) -> (out: String)
    ensures
        out@ == plain_inline(value@),
{
    let text = chars_of(value);
    let plain = plain_inline_chars(text.as_slice());
    string_of(plain.as_slice())
}

/// Whether a character marks a list item.
pub open spec fn bullet(c: char) -> bool {
    c == '-' || c == '+' || c == '*'
}

/// Behind `#` to `######` and white space: the number of marks and where the
/// heading starts.
pub open spec fn heading(line: Seq<char>) -> Option<(int, int)> {
    let marks = chars::run_end(line, 0, '#');
    if 1 <= marks <= 6 && marks < line.len() && chars::white(line[marks]) {
        Some((marks, chars::white_end(line, marks)))
    } else {
        None
    }
}

pub fn find_heading(line: &[char]) -> (at: Option<(usize, usize)>)
    ensures
        match at {
            Some((marks, at)) => heading(line@) == Some((marks as int, at as int)) && 1 <= marks
                <= 6 && at <= line@.len(),
            None => heading(line@) is None,
        },
{
    let marks: usize = chars::end_of_run(line, 0, '#');
    if 1 <= marks && marks <= 6 && marks < line.len() && chars::is_white(line[marks]) {
        Some((marks, chars::end_of_white(line, marks)))
    } else {
        None
    }
}

/// Behind a list mark and white space: where the item starts.
pub open spec fn list_item(line: Seq<char>) -> Option<int> {
    if line.len() > 1 && bullet(line[0]) && chars::white(line[1]) {
        Some(chars::white_end(line, 1))
    } else {
        None
    }
}

pub fn find_list_item(line: &[char]) -> (at: Option<usize>)
    ensures
        match at {
            Some(at) => list_item(line@) == Some(at as int) && at <= line@.len(),
            None => list_item(line@) is None,
        },
{
    if line.len() > 1 && (line[0] == '-' || line[0] == '+' || line[0] == '*') && chars::is_white(
        line[1],
    ) {
        Some(chars::end_of_white(line, 1))
    } else {
        None
    }
}

/// Behind a list mark and a box in brackets: whether the box is ticked and where
/// the task starts.
pub open spec fn task(line: Seq<char>) -> Option<(bool, int)> {
    match list_item(line) {
        Some(at) => if holds(line, at, '[') && at + 3 < line.len() && (line[at + 1] == ' '
            || line[at + 1] == 'x' || line[at + 1] == 'X') && line[at + 2] == ']' && chars::white(
            line[at + 3],
        ) {
            Some((line[at + 1] != ' ', chars::white_end(line, at + 3)))
        } else {
            None
        },
        None => None,
    }
}

pub fn find_task(line: &[char]) -> (at: Option<(bool, usize)>)
    ensures
        match at {
            Some((done, at)) => task(line@) == Some((done, at as int)) && at <= line@.len(),
            None => task(line@) is None,
        },
{
    match find_list_item(line) {
        Some(at) => {
            if char_is(line, at, '[') && line.len() - at > 3 && (line[at + 1] == ' ' || line[at + 1]
                == 'x' || line[at + 1] == 'X') && line[at + 2] == ']' && chars::is_white(
                line[at + 3],
            ) {
                Some((line[at + 1] != ' ', chars::end_of_white(line, at + 3)))
            } else {
                None
            }
        },
        None => None,
    }
}

/// Behind a number with a dot or a parenthesis and white space: the end of the
/// mark and where the item starts.
pub open spec fn ordered_item(line: Seq<char>) -> Option<(int, int)> {
    let digits = chars::class_end(line, 0, chars::Class::Digit);
    if digits > 0 && (holds(line, digits, '.') || holds(line, digits, ')')) && digits + 1
        < line.len() && chars::white(line[digits + 1]) {
        Some((digits + 1, chars::white_end(line, digits + 1)))
    } else {
        None
    }
}

pub fn find_ordered_item(line: &[char]) -> (at: Option<(usize, usize)>)
    ensures
        match at {
            Some((mark, at)) => ordered_item(line@) == Some((mark as int, at as int)) && mark <= at
                <= line@.len(),
            None => ordered_item(line@) is None,
        },
{
    let n: usize = line.len();
    let digits: usize = chars::end_of_class(line, 0, chars::Class::Digit);
    if digits > 0 && (char_is(line, digits, '.') || char_is(line, digits, ')')) && digits + 1 < n
        && chars::is_white(line[digits + 1]) {
        Some((digits + 1, chars::end_of_white(line, digits + 1)))
    } else {
        None
    }
}

/// Behind a quote mark: where the quote starts.
pub open spec fn quote(line: Seq<char>) -> Option<int> {
    if holds(line, 0, '>') {
        Some(chars::white_end(line, 1))
    } else {
        None
    }
}

pub fn find_quote(line: &[char]) -> (at: Option<usize>)
    ensures
        match at {
            Some(at) => quote(line@) == Some(at as int) && at <= line@.len(),
            None => quote(line@) is None,
        },
{
    if char_is(line, 0, '>') {
        Some(chars::end_of_white(line, 1))
    } else {
        None
    }
}

/// Behind a callout such as `[!NOTE]`: the end of its name, which starts at the
/// third character, and where the text starts.
pub open spec fn callout(line: Seq<char>) -> Option<(int, int)> {
    let name_end = chars::class_end(line, 2, chars::Class::Letter);
    if holds(line, 0, '[') && holds(line, 1, '!') && name_end > 2 && holds(line, name_end, ']') {
        Some((name_end, chars::white_end(line, name_end + 1)))
    } else {
        None
    }
}

pub fn find_callout(line: &[char]) -> (at: Option<(usize, usize)>)
    ensures
        match at {
            Some((name_end, at)) => callout(line@) == Some((name_end as int, at as int)) && 2
                < name_end <= at <= line@.len(),
            None => callout(line@) is None,
        },
{
    let n: usize = line.len();
    if char_is(line, 0, '[') && char_is(line, 1, '!') {
        let name_end: usize = chars::end_of_class(line, 2, chars::Class::Letter);
        if name_end > 2 && name_end < n && char_is(line, name_end, ']') {
            return Some((name_end, chars::end_of_white(line, name_end + 1)));
        }
    }
    None
}

/// Behind three or more backticks: where the name of the language starts and
/// ends, and where the text starts.
pub open spec fn fence(line: Seq<char>) -> Option<(int, int, int)> {
    let ticks = chars::run_end(line, 0, '`');
    let name = chars::white_end(line, ticks);
    let name_end = chars::class_end(line, name, chars::Class::Language);
    if ticks >= 3 {
        Some((name, name_end, chars::white_end(line, name_end)))
    } else {
        None
    }
}

pub fn find_fence(line: &[char]) -> (at: Option<(usize, usize, usize)>)
    ensures
        match at {
            Some((name, name_end, at)) => fence(line@) == Some(
                (name as int, name_end as int, at as int),
            ) && name <= name_end <= at <= line@.len(),
            None => fence(line@) is None,
        },
{
    let ticks: usize = chars::end_of_run(line, 0, '`');
    if ticks < 3 {
        return None;
    }
    let name: usize = chars::end_of_white(line, ticks);
    let name_end: usize = chars::end_of_class(line, name, chars::Class::Language);
    Some((name, name_end, chars::end_of_white(line, name_end)))
}

/// A line without what stands before `at`.
pub open spec fn behind(line: Seq<char>, at: Option<int>) -> Seq<char> {
    match at {
        Some(at) => line.skip(at),
        None => line,
    }
}

/// The line without its block marks: heading, task, list, number, quote,
/// callout, and fence, each once and in this order.
pub open spec fn unmarked(line: Seq<char>) -> Seq<char> {
    let line = behind(
        line,
        match heading(line) {
            Some((_, at)) => Some(at),
            None => None,
        },
    );
    let line = behind(
        line,
        match task(line) {
            Some((_, at)) => Some(at),
            None => None,
        },
    );
    let line = behind(line, list_item(line));
    let line = behind(
        line,
        match ordered_item(line) {
            Some((_, at)) => Some(at),
            None => None,
        },
    );
    let line = behind(line, quote(line));
    let line = behind(
        line,
        match callout(line) {
            Some((_, at)) => Some(at),
            None => None,
        },
    );
    behind(
        line,
        match fence(line) {
            Some((_, _, at)) => Some(at),
            None => None,
        },
    )
}

/// The plain text of a Markdown line: block marks go, the sentence stays.
pub open spec fn plain_line(line: Seq<char>) -> Seq<char> {
    plain_inline(unmarked(chars::trim(line)))
}

/// The plain text of a Markdown line.
pub fn plain_line_chars(value: &[char]) -> (out: Vec<char>)
    ensures
        out@ == plain_line(value@),
{
    let mut line = chars::trimmed(value);
    if let Some((_, at)) = find_heading(line.as_slice()) {
        line = chars::tail_of(line.as_slice(), at);
    }
    if let Some((_, at)) = find_task(line.as_slice()) {
        line = chars::tail_of(line.as_slice(), at);
    }
    if let Some(at) = find_list_item(line.as_slice()) {
        line = chars::tail_of(line.as_slice(), at);
    }
    if let Some((_, at)) = find_ordered_item(line.as_slice()) {
        line = chars::tail_of(line.as_slice(), at);
    }
    if let Some(at) = find_quote(line.as_slice()) {
        line = chars::tail_of(line.as_slice(), at);
    }
    if let Some((_, at)) = find_callout(line.as_slice()) {
        line = chars::tail_of(line.as_slice(), at);
    }
    if let Some((_, _, at)) = find_fence(line.as_slice()) {
        line = chars::tail_of(line.as_slice(), at);
    }
    plain_inline_chars(line.as_slice())
}

/// The plain text of a Markdown line.
pub fn markdown_plain_line(value: &str) -> (out: String)
    ensures
        out@ == plain_line(value@),
{
    let text = chars_of(value);
    let plain = plain_line_chars(text.as_slice());
    string_of(plain.as_slice())
}

/// The plain texts of the first `n` lines, without the empty ones.
pub open spec fn plain_lines(lines: Seq<Seq<char>>, n: int) -> Seq<Seq<char>>
    decreases n,
{
    if n <= 0 {
        Seq::empty()
    } else if plain_line(lines[n - 1]).len() > 0 {
        plain_lines(lines, n - 1).push(plain_line(lines[n - 1]))
    } else {
        plain_lines(lines, n - 1)
    }
}

/// The plain text of a Markdown text: every line that says something, joined.
pub open spec fn plain_summary(text: Seq<char>) -> Seq<char> {
    let lines = chars::lines(text);
    chars::joined_with(plain_lines(lines, lines.len() as int), " · "@)
}

/// The plain text of a Markdown text: every line that says something, joined.
pub fn markdown_plain_summary(value: &str) -> (out: String)
    ensures
        out@ == plain_summary(value@),
{
    let text = chars_of(value);
    let parts = chars::split_lines(text.as_slice());
    let ghost lines = chars::lines(value@);
    let mut kept: Vec<Vec<char>> = Vec::new();
    let mut i: usize = 0;
    assert(chars::views(kept@) =~= plain_lines(lines, 0));
    while i < parts.len()
        invariant
            i <= parts.len(),
            chars::views(parts@) == lines,
            chars::views(kept@) == plain_lines(lines, i as int),
        decreases parts.len() - i,
    {
        assert(lines[i as int] == parts@[i as int]@);
        let plain = plain_line_chars(parts[i].as_slice());
        let ghost before = chars::views(kept@);
        let ghost line = plain@;
        if plain.len() > 0 {
            kept.push(plain);
            assert(chars::views(kept@) =~= before.push(line));
        }
        i = i + 1;
    }
    let separator = chars_of(" · ");
    let joined = chars::join_with(&kept, separator.as_slice());
    string_of(joined.as_slice())
}

/// The plain text of the first line that says something.
pub fn first_plain_line(value: &str) -> (out: Option<String>)
    ensures
        ({
            let lines = chars::lines(value@);
            let plain = plain_lines(lines, lines.len() as int);
            match out {
                Some(out) => plain.len() > 0 && out@ == plain[0],
                None => plain.len() == 0,
            }
        }),
{
    let text = chars_of(value);
    let parts = chars::split_lines(text.as_slice());
    let ghost lines = chars::lines(value@);
    let mut i: usize = 0;
    while i < parts.len()
        invariant
            i <= parts.len(),
            chars::views(parts@) == lines,
            lines == chars::lines(value@),
            plain_lines(lines, i as int).len() == 0,
        decreases parts.len() - i,
    {
        assert(lines[i as int] == parts@[i as int]@);
        let plain = plain_line_chars(parts[i].as_slice());
        if plain.len() > 0 {
            proof {
                assert(plain_lines(lines, i + 1) =~= plain_lines(lines, i as int).push(plain@));
                plain_lines_extend(lines, i + 1, lines.len() as int);
                assert(plain_lines(lines, i + 1)[0] == plain@);
            }
            return Some(string_of(plain.as_slice()));
        }
        i = i + 1;
    }
    None
}

proof fn plain_lines_extend(lines: Seq<Seq<char>>, a: int, b: int)
    requires
        0 <= a <= b,
    ensures
        plain_lines(lines, a).len() <= plain_lines(lines, b).len(),
        forall|i: int|
            0 <= i < plain_lines(lines, a).len() ==> #[trigger] plain_lines(lines, a)[i]
                == plain_lines(lines, b)[i],
    decreases b - a,
{
    if a < b {
        plain_lines_extend(lines, a, b - 1);
    }
}

proof fn lemma_run(text: Seq<char>, from: int, at: int, c: char)
    requires
        0 <= from <= at <= text.len(),
        forall|i: int| from <= i < at ==> #[trigger] text[i] == c,
        at == text.len() || text[at] != c,
    ensures
        chars::run_end(text, from, c) == at,
    decreases at - from,
{
    if from < at {
        lemma_run(text, from + 1, at, c);
    }
}

proof fn lemma_next(text: Seq<char>, from: int, at: int, a: char, b: char)
    requires
        0 <= from <= at < text.len(),
        forall|i: int| from <= i < at ==> #[trigger] text[i] != a && text[i] != b,
        text[at] == a || text[at] == b,
    ensures
        chars::next_of(text, from, a, b) == at,
    decreases at - from,
{
    if from < at {
        assert(text[from] != a);
        lemma_next(text, from + 1, at, a, b);
    }
}

proof fn lemma_white(text: Seq<char>, from: int, at: int)
    requires
        0 <= from <= at <= text.len(),
        forall|i: int| from <= i < at ==> chars::white(#[trigger] text[i]),
        at == text.len() || !chars::white(text[at]),
    ensures
        chars::white_end(text, from) == at,
    decreases at - from,
{
    if from < at {
        lemma_white(text, from + 1, at);
    }
}

proof fn lemma_class(text: Seq<char>, from: int, at: int, class: chars::Class)
    requires
        0 <= from <= at <= text.len(),
        forall|i: int| from <= i < at ==> chars::member(class, #[trigger] text[i]),
        at == text.len() || !chars::member(class, text[at]),
    ensures
        chars::class_end(text, from, class) == at,
    decreases at - from,
{
    if from < at {
        lemma_class(text, from + 1, at, class);
    }
}

/// A backslash before a mark of Markdown goes and the mark stays; before any other
/// character it stays.
pub proof fn escapes_keep_the_mark(text: Seq<char>, at: int)
    requires
        0 <= at < text.len(),
        text[at] == '\\',
    ensures
        at + 1 < text.len() && seq![
            '\\',
            '`',
            '*',
            '_',
            '[',
            ']',
            '{',
            '}',
            '(',
            ')',
            '#',
            '+',
            '-',
            '.',
            '!',
            '~',
            '>',
        ].contains(text[at + 1]) ==> found(Rule::Escape, text, at) == Some((at + 1, at + 2, at + 2)),
        at + 1 == text.len() || !escapable(text[at + 1]) ==> found(Rule::Escape, text, at) is None,
{
}

/// A link keeps its label and an image its description; the target and all brackets go.
pub proof fn links_keep_their_label(text: Seq<char>, at: int, label_end: int, end: int)
    requires
        0 <= at < label_end,
        label_end + 1 < end < text.len(),
        text[at] == '[',
        forall|i: int| at < i < label_end ==> #[trigger] text[i] != ']' && text[i] != '\n',
        text[label_end] == ']',
        text[label_end + 1] == '(',
        forall|i: int| label_end + 1 < i < end ==> #[trigger] text[i] != ')' && text[i] != '\n',
        text[end] == ')',
    ensures
        label_end > at + 1 ==> found(Rule::Link, text, at) == Some((at + 1, label_end, end + 1)),
        label_end == at + 1 ==> found(Rule::Link, text, at) is None,
        at > 0 && text[at - 1] == '!' ==> found(Rule::Image, text, at - 1) == Some(
            (at + 1, label_end, end + 1),
        ),
{
    lemma_next(text, at + 1, label_end, ']', '\n');
    lemma_next(text, label_end + 2, end, ')', '\n');
}

/// Code keeps what stands between its backticks, however many of them open or close it.
pub proof fn code_keeps_its_text(text: Seq<char>, at: int, open: int, close: int, end: int)
    requires
        0 <= at < open < close < end <= text.len(),
        forall|i: int| at <= i < open ==> #[trigger] text[i] == '`',
        forall|i: int| open <= i < close ==> #[trigger] text[i] != '`' && text[i] != '\n',
        forall|i: int| close <= i < end ==> #[trigger] text[i] == '`',
        end == text.len() || text[end] != '`',
    ensures
        found(Rule::Code, text, at) == Some((open, close, end)),
{
    assert(text[at] == '`');
    assert(text[close] == '`');
    assert(text[open] != '`');
    lemma_run(text, at, open, '`');
    lemma_next(text, open, close, '`', '\n');
    lemma_run(text, close, end, '`');
}

/// A pair of marks on each side goes and what stands between them stays.
pub proof fn doubled_marks_keep_their_text(text: Seq<char>, at: int, close: int, mark: char)
    requires
        0 <= at,
        at + 2 < close,
        close + 1 < text.len(),
        mark != '\n',
        text[at] == mark,
        text[at + 1] == mark,
        forall|i: int| at + 2 <= i < close ==> #[trigger] text[i] != mark && text[i] != '\n',
        text[close] == mark,
        text[close + 1] == mark,
    ensures
        found(Rule::Pair(mark), text, at) == Some((at + 2, close, close + 2)),
{
    lemma_next(text, at + 2, close, mark, '\n');
}

/// A word between single marks keeps its text where it stands apart from its
/// neighbours; within a word the marks stay.
pub proof fn emphasis_keeps_its_text(text: Seq<char>, at: int, close: int, mark: char)
    requires
        0 <= at,
        at + 1 < close < text.len(),
        mark != '\n',
        text[at] == mark,
        forall|i: int| at < i < close ==> #[trigger] text[i] != mark && text[i] != '\n',
        text[close] == mark,
        !chars::white(text[at + 1]),
    ensures
        (at == 0 || chars::white(text[at - 1])) && (close + 1 == text.len() || chars::white(
            text[close + 1],
        )) ==> found(Rule::Emphasis(mark), text, at) == Some((at + 1, close, close + 1)),
        at > 0 && chars::member(chars::Class::Word, text[at - 1]) ==> found(
            Rule::Emphasis(mark),
            text,
            at,
        ) is None,
        close + 1 < text.len() && chars::member(chars::Class::Word, text[close + 1]) ==> found(
            Rule::Emphasis(mark),
            text,
            at,
        ) is None,
{
    lemma_next(text, at + 1, close, mark, '\n');
}

/// A tag in angle brackets goes as a whole, an opening one as well as a closing one.
pub proof fn tags_go_as_a_whole(text: Seq<char>, at: int, name: int, close: int)
    requires
        0 <= at,
        name == at + 1 || name == at + 2 && text[at + 1] == '/',
        name < close < text.len(),
        text[at] == '<',
        name == at + 1 ==> text[at + 1] != '/',
        chars::letter(text[name]),
        forall|i: int| name < i < close ==> #[trigger] text[i] != '>' && text[i] != '\n',
        text[close] == '>',
    ensures
        found(Rule::Tag, text, at) matches Some((from, to, end)) && from == to && end == close + 1,
{
    lemma_next(text, name + 1, close, '>', '\n');
}

/// Leftover backticks go, and so do two or more asterisks or tildes in a row; a single
/// asterisk or tilde stays.
pub proof fn leftover_marks_go(text: Seq<char>, at: int, end: int)
    requires
        0 <= at < end <= text.len(),
        forall|i: int| at <= i < end ==> #[trigger] text[i] == text[at],
        end == text.len() || text[end] != text[at],
    ensures
        text[at] == '`' || (text[at] == '*' || text[at] == '~') && end >= at + 2 ==> (found(
            Rule::Run,
            text,
            at,
        ) matches Some((from, to, after)) && from == to && after == end),
        text[at] != '`' && !((text[at] == '*' || text[at] == '~') && end >= at + 2) ==> found(
            Rule::Run,
            text,
            at,
        ) is None,
{
    lemma_run(text, at, end, text[at]);
}

/// Text without any decoration of a kind stays as it is.
pub proof fn other_text_stays(rule: Rule, text: Seq<char>, at: int)
    requires
        0 <= at <= text.len(),
        forall|i: int| at <= i < text.len() ==> (#[trigger] found(rule, text, i)) is None,
    ensures
        undecorated(rule, text, at) == text.skip(at),
    decreases text.len() - at,
{
    if at < text.len() {
        assert(found(rule, text, at) is None);
        other_text_stays(rule, text, at + 1);
        assert(text.skip(at) =~= seq![text[at]] + text.skip(at + 1));
    } else {
        assert(text.skip(at) =~= Seq::empty());
    }
}

/// Text before the first decoration stays, what the decoration keeps follows, and the
/// search goes on behind it.
pub proof fn the_first_decoration_goes(
    rule: Rule,
    text: Seq<char>,
    from: int,
    at: int,
    kept: (int, int),
    end: int,
)
    requires
        0 <= from <= at < end <= text.len(),
        forall|i: int| from <= i < at ==> (#[trigger] found(rule, text, i)) is None,
        found(rule, text, at) == Some((kept.0, kept.1, end)),
    ensures
        undecorated(rule, text, from) == text.subrange(from, at) + text.subrange(kept.0, kept.1)
            + undecorated(rule, text, end),
    decreases at - from,
{
    if from < at {
        assert(found(rule, text, from) is None);
        the_first_decoration_goes(rule, text, from + 1, at, kept, end);
        assert(text.subrange(from, at) =~= seq![text[from]] + text.subrange(from + 1, at));
        assert(undecorated(rule, text, from) =~= text.subrange(from, at) + text.subrange(
            kept.0,
            kept.1,
        ) + undecorated(rule, text, end));
    } else {
        assert(text.subrange(from, at) =~= Seq::empty());
        assert(undecorated(rule, text, from) =~= text.subrange(from, at) + text.subrange(
            kept.0,
            kept.1,
        ) + undecorated(rule, text, end));
    }
}

/// One to six number signs and white space make a heading of that many levels.
pub proof fn headings_have_up_to_six_levels(line: Seq<char>, marks: int, at: int)
    requires
        0 <= marks <= at <= line.len(),
        forall|i: int| 0 <= i < marks ==> #[trigger] line[i] == '#',
        marks == line.len() || line[marks] != '#',
        forall|i: int| marks <= i < at ==> chars::white(#[trigger] line[i]),
        at == line.len() || !chars::white(line[at]),
    ensures
        1 <= marks <= 6 && at > marks ==> heading(line) == Some((marks, at)),
        marks == 0 || marks > 6 || at == marks ==> heading(line) is None,
{
    lemma_run(line, 0, marks, '#');
    lemma_white(line, marks, at);
    if at > marks {
        assert(chars::white(line[marks]));
    }
}

/// A dash, a plus sign or an asterisk and white space make a list item. A box in brackets
/// behind them makes it a task, which is done where the box holds a cross.
pub proof fn marked_lines_are_items_and_tasks(line: Seq<char>, at: int, start: int)
    requires
        1 < at <= line.len(),
        line[0] == '-' || line[0] == '+' || line[0] == '*',
        forall|i: int| 1 <= i < at ==> chars::white(#[trigger] line[i]),
        at == line.len() || !chars::white(line[at]),
    ensures
        list_item(line) == Some(at),
        at + 3 < start <= line.len() && line[at] == '[' && line[at + 2] == ']' && (forall|i: int|
            at + 3 <= i < start ==> chars::white(#[trigger] line[i])) && (start == line.len()
            || !chars::white(line[start])) ==> {
            &&& line[at + 1] == ' ' ==> task(line) == Some((false, start))
            &&& line[at + 1] == 'x' || line[at + 1] == 'X' ==> task(line) == Some((true, start))
            &&& line[at + 1] != ' ' && line[at + 1] != 'x' && line[at + 1] != 'X' ==> task(
                line,
            ) is None
        },
        at == line.len() || line[at] != '[' ==> task(line) is None,
{
    assert(chars::white(line[1]));
    lemma_white(line, 1, at);
    if at + 3 < start <= line.len() && line[at] == '[' && line[at + 2] == ']' && (forall|i: int|
        at + 3 <= i < start ==> chars::white(#[trigger] line[i])) && (start == line.len()
        || !chars::white(line[start])) {
        assert(chars::white(line[at + 3]));
        lemma_white(line, at + 3, start);
    }
}

/// Other lines are no list items and no tasks.
pub proof fn unmarked_lines_are_no_items(line: Seq<char>)
    requires
        line.len() < 2 || line[0] != '-' && line[0] != '+' && line[0] != '*' || !chars::white(line[1]),
    ensures
        list_item(line) is None,
        task(line) is None,
{
}

/// A number, a dot or a closing parenthesis, and white space make a numbered item.
pub proof fn numbered_lines_are_items(line: Seq<char>, digits: int, at: int)
    requires
        0 <= digits < line.len(),
        forall|i: int| 0 <= i < digits ==> chars::digit(#[trigger] line[i]),
        !chars::digit(line[digits]),
        digits < at <= line.len(),
        forall|i: int| digits < i < at ==> chars::white(#[trigger] line[i]),
        at == line.len() || !chars::white(line[at]),
    ensures
        digits > 0 && (line[digits] == '.' || line[digits] == ')') && at > digits + 1
            ==> ordered_item(line) == Some((digits + 1, at)),
        digits == 0 || line[digits] != '.' && line[digits] != ')' || at == digits + 1
            ==> ordered_item(line) is None,
{
    assert forall|i: int| 0 <= i < digits implies chars::member(
        chars::Class::Digit,
        #[trigger] line[i],
    ) by {
        assert(chars::digit(line[i]));
    }
    lemma_class(line, 0, digits, chars::Class::Digit);
    lemma_white(line, digits + 1, at);
    if at > digits + 1 {
        assert(chars::white(line[digits + 1]));
    }
}

/// A greater-than sign opens a quote, which starts behind the white space after it.
pub proof fn quotes_start_behind_their_mark(line: Seq<char>, at: int)
    requires
        1 <= at <= line.len(),
        forall|i: int| 1 <= i < at ==> chars::white(#[trigger] line[i]),
        at == line.len() || !chars::white(line[at]),
    ensures
        line[0] == '>' ==> quote(line) == Some(at),
        line[0] != '>' ==> quote(line) is None,
{
    lemma_white(line, 1, at);
}

/// A callout is a name of letters in brackets behind an exclamation mark.
pub proof fn callouts_are_named_in_brackets(line: Seq<char>, name_end: int, at: int)
    requires
        2 < name_end < at <= line.len(),
        line[0] == '[',
        line[1] == '!',
        forall|i: int| 2 <= i < name_end ==> chars::letter(#[trigger] line[i]),
        line[name_end] == ']',
        forall|i: int| name_end < i < at ==> chars::white(#[trigger] line[i]),
        at == line.len() || !chars::white(line[at]),
    ensures
        callout(line) == Some((name_end, at)),
{
    assert forall|i: int| 2 <= i < name_end implies chars::member(
        chars::Class::Letter,
        #[trigger] line[i],
    ) by {
        assert(chars::letter(line[i]));
    }
    lemma_class(line, 2, name_end, chars::Class::Letter);
    lemma_white(line, name_end + 1, at);
}

/// Three or more backticks open a fence, with the name of a language behind them.
pub proof fn fences_name_their_language(
    line: Seq<char>,
    ticks: int,
    name: int,
    name_end: int,
    at: int,
)
    requires
        0 <= ticks <= name <= name_end <= at <= line.len(),
        forall|i: int| 0 <= i < ticks ==> #[trigger] line[i] == '`',
        ticks == line.len() || line[ticks] != '`',
        forall|i: int| ticks <= i < name ==> chars::white(#[trigger] line[i]),
        name == line.len() || !chars::white(line[name]),
        forall|i: int|
            name <= i < name_end ==> chars::member(chars::Class::Language, #[trigger] line[i]),
        name_end == line.len() || !chars::member(chars::Class::Language, line[name_end]),
        forall|i: int| name_end <= i < at ==> chars::white(#[trigger] line[i]),
        at == line.len() || !chars::white(line[at]),
    ensures
        ticks >= 3 ==> fence(line) == Some((name, name_end, at)),
        ticks < 3 ==> fence(line) is None,
{
    lemma_run(line, 0, ticks, '`');
    lemma_white(line, ticks, name);
    lemma_class(line, name, name_end, chars::Class::Language);
    lemma_white(line, name_end, at);
}

/// A line that starts with no mark of a block keeps all of its text.
pub proof fn sentences_keep_their_text(line: Seq<char>)
    requires
        line.len() > 0,
        line[0] != '#' && line[0] != '-' && line[0] != '+' && line[0] != '*' && line[0] != '>'
            && line[0] != '[' && line[0] != '`',
        !chars::digit(line[0]),
    ensures
        unmarked(line) == line,
{
    lemma_run(line, 0, 0, '#');
    lemma_run(line, 0, 0, '`');
    lemma_class(line, 0, 0, chars::Class::Digit);
}

proof fn lemma_plain_lines(lines: Seq<Seq<char>>, n: int)
    requires
        0 <= n <= lines.len(),
    ensures
        plain_lines(lines, n) == lines.take(n).map_values(|line: Seq<char>| plain_line(line)).filter(
            |line: Seq<char>| line.len() > 0,
        ),
    decreases n,
{
    let plain = |line: Seq<char>| plain_line(line);
    let says = |line: Seq<char>| line.len() > 0;
    if n > 0 {
        lemma_plain_lines(lines, n - 1);
        let head = lines.take(n - 1);
        assert(lines.take(n).map_values(plain) =~= head.map_values(plain).push(
            plain_line(lines[n - 1]),
        ));
        head.map_values(plain).lemma_filter_push(plain_line(lines[n - 1]), says);
    } else {
        reveal(Seq::filter);
        assert(lines.take(0).map_values(plain) =~= Seq::empty());
    }
}

/// The plain text of a text is that of its lines, one after the other, without those that
/// say nothing.
pub proof fn lines_that_say_nothing_are_left_out(lines: Seq<Seq<char>>)
    ensures
        plain_lines(lines, lines.len() as int) == lines.map_values(
            |line: Seq<char>| plain_line(line),
        ).filter(|line: Seq<char>| line.len() > 0),
{
    lemma_plain_lines(lines, lines.len() as int);
    assert(lines.take(lines.len() as int) =~= lines);
}

} // verus!
