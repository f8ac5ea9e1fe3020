//! The structure of Markdown summaries, as tokens that hold plain text only.

use crate::chars;
use crate::plain_text;
use crate::text::{self, chars_of, chars_start_with, string_of};
use vstd::prelude::*;

verus! {

/// One piece of a line.
#[derive(Debug, PartialEq, Eq)]
pub enum MdInline {
    Text(String),
    /// White space between two other pieces.
    Space,
    Code(String),
    Strong(Vec<MdInline>),
    Em(Vec<MdInline>),
    Strike(Vec<MdInline>),
    Link { label: Vec<MdInline>, target: String },
    Image { label: Vec<MdInline>, target: String },
}

/// The contents of one piece of a line.
pub ghost enum MdView {
    Text(Seq<char>),
    Space,
    Code(Seq<char>),
    Strong(Seq<MdView>),
    Em(Seq<MdView>),
    Strike(Seq<MdView>),
    Link { label: Seq<MdView>, target: Seq<char> },
    Image { label: Seq<MdView>, target: Seq<char> },
}

impl MdInline {
    /// What the piece holds, at every depth.
    pub open spec fn contents(self) -> MdView
        decreases self,
    {
        match self {
            MdInline::Text(text) => MdView::Text(text@),
            MdInline::Space => MdView::Space,
            MdInline::Code(text) => MdView::Code(text@),
            MdInline::Strong(items) => MdView::Strong(
                Seq::new(
                    items@.len(),
                    |i: int|
                        if 0 <= i < items@.len() {
                            items@[i].contents()
                        } else {
                            MdView::Space
                        },
                ),
            ),
            MdInline::Em(items) => MdView::Em(
                Seq::new(
                    items@.len(),
                    |i: int|
                        if 0 <= i < items@.len() {
                            items@[i].contents()
                        } else {
                            MdView::Space
                        },
                ),
            ),
            MdInline::Strike(items) => MdView::Strike(
                Seq::new(
                    items@.len(),
                    |i: int|
                        if 0 <= i < items@.len() {
                            items@[i].contents()
                        } else {
                            MdView::Space
                        },
                ),
            ),
            MdInline::Link { label, target } => MdView::Link {
                label: Seq::new(
                    label@.len(),
                    |i: int|
                        if 0 <= i < label@.len() {
                            label@[i].contents()
                        } else {
                            MdView::Space
                        },
                ),
                target: target@,
            },
            MdInline::Image { label, target } => MdView::Image {
                label: Seq::new(
                    label@.len(),
                    |i: int|
                        if 0 <= i < label@.len() {
                            label@[i].contents()
                        } else {
                            MdView::Space
                        },
                ),
                target: target@,
            },
        }
    }
}

impl View for MdInline {
    type V = MdView;

    open spec fn view(&self) -> MdView {
        self.contents()
    }
}

/// The contents of the pieces of a line.
pub open spec fn pieces(items: Seq<MdInline>) -> Seq<MdView> {
    Seq::new(items.len(), |i: int| items[i]@)
}

/// The first place from `from` on at which the mark stands.
pub open spec fn first_mark(line: Seq<char>, mark: Seq<char>, from: int) -> Option<int>
    decreases line.len() - from,
{
    if from < 0 || from + mark.len() > line.len() {
        None
    } else if text::stands_at(line, from, mark) {
        Some(from)
    } else if from < line.len() {
        first_mark(line, mark, from + 1)
    } else {
        None
    }
}

/// The mark that closes what starts at `start`: the first behind it, from `from`
/// on, that no backslash escapes.
pub open spec fn closing(line: Seq<char>, mark: Seq<char>, start: int, from: int) -> Option<int>
    decreases line.len() - from,
{
    match first_mark(line, mark, from) {
        None => None,
        Some(at) => if at > start && line[at - 1] != '\\' {
            Some(at)
        } else if mark.len() > 0 && from <= at && at + mark.len() <= line.len() {
            closing(line, mark, start, at + mark.len())
        } else {
            None
        },
    }
}

fn find_mark(line: &[char], mark: &[char], from: usize) -> (at: Option<usize>)
    requires
        from <= line@.len(),
        mark@.len() > 0,
    ensures
        match at {
            Some(at) => first_mark(line@, mark@, from as int) == Some(at as int) && from <= at && at
                + mark@.len() <= line@.len(),
            None => first_mark(line@, mark@, from as int) is None,
        },
{
    let mut i: usize = from;
    while i < line.len() && mark.len() <= line.len() - i
        invariant
            from <= i <= line@.len(),
            mark@.len() > 0,
            first_mark(line@, mark@, from as int) == first_mark(line@, mark@, i as int),
        decreases line.len() - i,
    {
        if chars_start_with(line, i, mark) {
            return Some(i);
        }
        i = i + 1;
    }
    None
}

fn find_closing(line: &[char], mark: &[char], start: usize) -> (at: Option<usize>)
    requires
        start <= line@.len(),
        mark@.len() > 0,
    ensures
        match at {
            Some(at) => closing(line@, mark@, start as int, start as int) == Some(at as int) && start
                < at && at + mark@.len() <= line@.len(),
            None => closing(line@, mark@, start as int, start as int) is None,
        },
{
    let mut from: usize = start;
    loop
        invariant
            start <= from <= line@.len(),
            mark@.len() > 0,
            closing(line@, mark@, start as int, start as int) == closing(
                line@,
                mark@,
                start as int,
                from as int,
            ),
        decreases line.len() - from,
    {
        match find_mark(line, mark, from) {
            None => {
                return None;
            },
            Some(at) => {
                if at > start && line[at - 1] != '\\' {
                    return Some(at);
                }
                from = at + mark.len();
            },
        }
    }
}

/// What stands at a place of a line.
#[derive(Debug, Clone, Copy, PartialEq, Eq, Structural)]
pub enum Token {
    /// Punctuation behind a backslash.
    Escape,
    /// A link or an image: where its label and its target start and end.
    Link {
        image: bool,
        label: usize,
        label_end: usize,
        target: usize,
        target_end: usize,
    },
    /// Code between two runs of `ticks` backticks.
    Code { ticks: usize, close: usize },
    /// Strong or struck text between two doubled marks.
    Pair { strike: bool, close: usize },
    /// Emphasised text between two single marks.
    Em { close: usize },
    /// A character of plain text.
    Plain,
}

/// The link or the image at a place: both its label and its target say something.
pub open spec fn link_at(line: Seq<char>, at: int) -> Option<Token> {
    let image = line[at] == '!';
    let open = if image {
        at + 1
    } else {
        at
    };
    match plain_text::bracketed(line, open) {
        Some((label_end, end)) => if label_end > open + 1 && end - 1 > label_end + 2 {
            Some(
                Token::Link {
                    image,
                    label: (open + 1) as usize,
                    label_end: label_end as usize,
                    target: (label_end + 2) as usize,
                    target_end: (end - 1) as usize,
                },
            )
        } else {
            None
        },
        None => None,
    }
}

/// A run of backticks.
pub open spec fn ticks_of(n: int) -> Seq<char> {
    Seq::new(n as nat, |i: int| '`')
}

/// The code at a place.
pub open spec fn code_at(line: Seq<char>, at: int) -> Option<Token> {
    let open = chars::run_end(line, at, '`');
    if line[at] == '`' {
        match closing(line, ticks_of(open - at), open, open) {
            Some(close) => Some(
                Token::Code { ticks: (open - at) as usize, close: close as usize },
            ),
            None => None,
        }
    } else {
        None
    }
}

/// The strong or struck text at a place.
pub open spec fn pair_at(line: Seq<char>, at: int) -> Option<Token> {
    let mark = line[at];
    if (mark == '*' || mark == '_' || mark == '~') && plain_text::holds(line, at + 1, mark) {
        match closing(line, seq![mark, mark], at + 2, at + 2) {
            Some(close) => Some(Token::Pair { strike: mark == '~', close: close as usize }),
            None => None,
        }
    } else {
        None
    }
}

/// The emphasised text at a place: it is set off from the words around it.
pub open spec fn em_at(line: Seq<char>, at: int) -> Option<Token> {
    let mark = line[at];
    if (mark == '*' || mark == '_') && (at == 0 || plain_text::opens_word(line[at - 1])) && at + 1
        < line.len() && !chars::white(line[at + 1]) {
        match closing(line, seq![mark], at + 1, at + 1) {
            Some(close) => if close + 1 >= line.len() || plain_text::closes_word(line[close + 1]) {
                Some(Token::Em { close: close as usize })
            } else {
                None
            },
            None => None,
        }
    } else {
        None
    }
}

/// What stands at a place of a line: the first of escape, link, code, pair, and
/// emphasis that does, otherwise plain text.
pub open spec fn token_at(line: Seq<char>, at: int) -> Token {
    if line[at] == '\\' && at + 1 < line.len() && plain_text::escapable(line[at + 1]) {
        Token::Escape
    } else if link_at(line, at) is Some {
        link_at(line, at)->0
    } else if code_at(line, at) is Some {
        code_at(line, at)->0
    } else if pair_at(line, at) is Some {
        pair_at(line, at)->0
    } else if em_at(line, at) is Some {
        em_at(line, at)->0
    } else {
        Token::Plain
    }
}

/// Whether a token lies within the line behind `at`.
pub open spec fn fits(line: Seq<char>, at: int, token: Token) -> bool {
    match token {
        Token::Escape => at + 2 <= line.len(),
        Token::Link { image, label, label_end, target, target_end } => at < label <= label_end
            <= target <= target_end < line.len(),
        Token::Code { ticks, close } => 0 < ticks && at + ticks <= close && close + ticks
            <= line.len(),
        Token::Pair { strike, close } => at + 2 <= close && close + 2 <= line.len(),
        Token::Em { close } => at + 1 <= close && close + 1 <= line.len(),
        Token::Plain => at + 1 <= line.len(),
    }
}

/// Finds what stands at a place of a line.
pub fn find_token(line: &[char], at: usize) -> (token: Token)
    requires
        at < line@.len(),
    ensures
        token == token_at(line@, at as int),
        fits(line@, at as int, token),
{
    let n: usize = line.len();
    let c: char = line[at];
    if c == '\\' && at + 1 < n && plain_text::is_escapable(line[at + 1]) {
        return Token::Escape;
    }
    let image = c == '!';
    let open: usize = if image {
        at + 1
    } else {
        at
    };
    if let Some((label_end, end)) = plain_text::find_bracketed(line, open) {
        if label_end > open + 1 && end - 1 > label_end + 2 {
            return Token::Link {
                image,
                label: open + 1,
                label_end,
                target: label_end + 2,
                target_end: end - 1,
            };
        }
    }
    if c == '`' {
        let ticks_end: usize = chars::end_of_run(line, at, '`');
        let mark = chars::slice_of(line, at, ticks_end);
        proof {
            run_holds(line@, at as int, '`');
            run_holds(line@, at + 1, '`');
            assert(mark@ =~= ticks_of(ticks_end - at));
            assert(ticks_end > at);
        }
        if let Some(close) = find_closing(line, mark.as_slice(), ticks_end) {
            return Token::Code { ticks: ticks_end - at, close };
        }
    }
    if (c == '*' || c == '_' || c == '~') && at + 1 < n && line[at + 1] == c {
        let mut mark: Vec<char> = Vec::new();
        mark.push(c);
        mark.push(c);
        assert(mark@ =~= seq![c, c]);
        if let Some(close) = find_closing(line, mark.as_slice(), at + 2) {
            return Token::Pair { strike: c == '~', close };
        }
    }
    if (c == '*' || c == '_') && (at == 0 || plain_text::is_boundary_before(line[at - 1])) && at + 1
        < n && !chars::is_white(line[at + 1]) {
        let mut mark: Vec<char> = Vec::new();
        mark.push(c);
        assert(mark@ =~= seq![c]);
        if let Some(close) = find_closing(line, mark.as_slice(), at + 1) {
            if close + 1 >= n || plain_text::is_boundary_after(line[close + 1]) {
                return Token::Em { close };
            }
        }
    }
    Token::Plain
}

proof fn run_holds(line: Seq<char>, from: int, c: char)
    requires
        0 <= from <= line.len(),
    ensures
        from <= chars::run_end(line, from, c) <= line.len(),
        forall|i: int| from <= i < chars::run_end(line, from, c) ==> #[trigger] line[i] == c,
    decreases line.len() - from,
{
    if from < line.len() && line[from] == c {
        run_holds(line, from + 1, c);
    }
}

/// A blank that does not break, which keeps the white space at the ends of a piece.
pub open spec fn edge(c: char) -> Seq<char> {
    if chars::white(c) {
        seq!['\u{a0}']
    } else {
        Seq::empty()
    }
}

/// Plain text as a piece: its words with the white space at its ends kept, or a
/// space where it has no words.
pub open spec fn plain_piece(plain: Seq<char>) -> Seq<MdView> {
    let words = plain_text::plain_inline(plain);
    if words.len() > 0 && plain.len() > 0 {
        seq![MdView::Text(edge(plain[0]) + words + edge(plain.last()))]
    } else if chars::has_white(plain) {
        seq![MdView::Space]
    } else {
        Seq::empty()
    }
}

/// Code without one blank at each end.
pub open spec fn code_text(code: Seq<char>) -> Seq<char> {
    let inner = if code.len() > 0 && code[0] == ' ' {
        code.skip(1)
    } else {
        code
    };
    if inner.len() > 0 && inner.last() == ' ' {
        inner.drop_last()
    } else {
        inner
    }
}

/// The greatest depth at which decoration within decoration is kept.
pub const MAX_INLINE_DEPTH: u8 = 4;

/// How many levels of decoration are left at a depth.
pub open spec fn levels(depth: nat) -> int {
    if depth > 4 {
        0
    } else {
        5 - depth
    }
}

/// The pieces of a fragment at a depth of decoration; too deep, it is plain text.
pub open spec fn inline(line: Seq<char>, depth: nat) -> Seq<MdView>
    decreases levels(depth), line.len() + 1, 0int,
{
    if depth > 4 {
        seq![MdView::Text(plain_text::plain_inline(line))]
    } else {
        inline_from(line, 0, Seq::empty(), depth)
    }
}

/// Where the line goes on behind a token.
pub open spec fn token_end(at: int, token: Token) -> int {
    match token {
        Token::Escape => at + 2,
        Token::Link { image, label, label_end, target, target_end } => target_end + 1,
        Token::Code { ticks, close } => close + ticks,
        Token::Pair { strike, close } => close + 2,
        Token::Em { close } => close + 1,
        Token::Plain => at + 1,
    }
}

/// The piece that a token other than text makes.
pub open spec fn piece_of(line: Seq<char>, at: int, token: Token, depth: nat) -> MdView
    decreases levels(depth), line.len() - at, 0int,
{
    if depth > 4 {
        MdView::Space
    } else {
        match token {
            Token::Link { image, label, label_end, target, target_end } => {
                let inner = inline(line.subrange(label as int, label_end as int), depth + 1);
                let place = chars::trim(line.subrange(target as int, target_end as int));
                if image {
                    MdView::Image { label: inner, target: place }
                } else {
                    MdView::Link { label: inner, target: place }
                }
            },
            Token::Code { ticks, close } => MdView::Code(
                code_text(line.subrange(at + ticks, close as int)),
            ),
            Token::Pair { strike, close } => {
                let inner = inline(line.subrange(at + 2, close as int), depth + 1);
                if strike {
                    MdView::Strike(inner)
                } else {
                    MdView::Strong(inner)
                }
            },
            Token::Em { close } => MdView::Em(
                inline(line.subrange(at + 1, close as int), depth + 1),
            ),
            Token::Escape => MdView::Space,
            Token::Plain => MdView::Space,
        }
    }
}

/// The pieces of a fragment from a place on, with plain text gathered before it.
pub open spec fn inline_from(line: Seq<char>, at: int, plain: Seq<char>, depth: nat) -> Seq<MdView>
    decreases levels(depth), line.len() - at, 1int,
{
    if depth > 4 || at < 0 || at >= line.len() || !fits(line, at, token_at(line, at)) {
        plain_piece(plain)
    } else {
        let token = token_at(line, at);
        match token {
            Token::Escape => inline_from(line, at + 2, plain.push(line[at + 1]), depth),
            Token::Plain => inline_from(line, at + 1, plain.push(line[at]), depth),
            _ => plain_piece(plain) + seq![piece_of(line, at, token, depth)] + inline_from(
                line,
                token_end(at, token),
                Seq::empty(),
                depth,
            ),
        }
    }
}

fn flush_plain(out: &mut Vec<MdInline>, plain: &mut Vec<char>)
    ensures
        pieces(final(out)@) == pieces(old(out)@) + plain_piece(old(plain)@),
        final(plain)@.len() == 0,
{
    let ghost before = pieces(out@);
    let ghost text = plain@;
    let words = plain_text::plain_inline_chars(plain.as_slice());
    if words.len() > 0 && plain.len() > 0 {
        let mut chars_out: Vec<char> = Vec::new();
        if chars::is_white(plain[0]) {
            chars_out.push('\u{a0}');
        }
        chars::extend_chars(&mut chars_out, words.as_slice());
        if chars::is_white(plain[plain.len() - 1]) {
            chars_out.push('\u{a0}');
        }
        assert(chars_out@ =~= edge(text[0]) + words@ + edge(text.last()));
        let piece = MdInline::Text(string_of(chars_out.as_slice()));
        out.push(piece);
        assert(pieces(out@) =~= before + plain_piece(text));
    } else if chars::contains_white(plain.as_slice()) {
        out.push(MdInline::Space);
        assert(pieces(out@) =~= before + plain_piece(text));
    } else {
        assert(pieces(out@) =~= before + plain_piece(text));
    }
    plain.clear();
}

fn code_chars(code: &[char]) -> (out: Vec<char>)
    ensures
        out@ == code_text(code@),
{
    let mut out = if code.len() > 0 && code[0] == ' ' {
        chars::tail_of(code, 1)
    } else {
        chars::tail_of(code, 0)
    };
    assert(code@.skip(0) =~= code@);
    let ghost inner = out@;
    if out.len() > 0 && out[out.len() - 1] == ' ' {
        out.pop();
        assert(out@ =~= inner.drop_last());
    }
    out
}

fn push_piece(out: &mut Vec<MdInline>, piece: MdInline)
    ensures
        pieces(final(out)@) == pieces(old(out)@).push(piece@),
{
    let ghost before = pieces(out@);
    out.push(piece);
    assert(pieces(out@) =~= before.push(piece@));
}

/// The piece that a token other than text makes.
fn make_piece(line: &[char], at: usize, token: Token, depth: u8) -> (piece: MdInline)
    requires
        depth <= 4,
        at < line@.len(),
        fits(line@, at as int, token),
    ensures
        piece@ == piece_of(line@, at as int, token, depth as nat),
    decreases levels(depth as nat), 0int,
{
    match token {
        Token::Link { image, label, label_end, target, target_end } => {
            let part = chars::slice_of(line, label, label_end);
            let inner = inline_chars(part.as_slice(), depth + 1);
            let place = chars::slice_of(line, target, target_end);
            let place = chars::trimmed(place.as_slice());
            let target_text = string_of(place.as_slice());
            let ghost inside = pieces(inner@);
            if image {
                let piece = MdInline::Image { label: inner, target: target_text };
                assert(piece@->Image_label =~= inside);
                piece
            } else {
                let piece = MdInline::Link { label: inner, target: target_text };
                assert(piece@->Link_label =~= inside);
                piece
            }
        },
        Token::Code { ticks, close } => {
            let part = chars::slice_of(line, at + ticks, close);
            let code = code_chars(part.as_slice());
            MdInline::Code(string_of(code.as_slice()))
        },
        Token::Pair { strike, close } => {
            let part = chars::slice_of(line, at + 2, close);
            let inner = inline_chars(part.as_slice(), depth + 1);
            let ghost inside = pieces(inner@);
            if strike {
                let piece = MdInline::Strike(inner);
                assert(piece@->Strike_0 =~= inside);
                piece
            } else {
                let piece = MdInline::Strong(inner);
                assert(piece@->Strong_0 =~= inside);
                piece
            }
        },
        Token::Em { close } => {
            let part = chars::slice_of(line, at + 1, close);
            let inner = inline_chars(part.as_slice(), depth + 1);
            let ghost inside = pieces(inner@);
            let piece = MdInline::Em(inner);
            assert(piece@->Em_0 =~= inside);
            piece
        },
        Token::Escape | Token::Plain => MdInline::Space,
    }
}

fn end_of_token(at: usize, token: Token, n: usize) -> (end: usize)
    requires
        match token {
            Token::Escape => at + 2 <= n,
            Token::Link { image, label, label_end, target, target_end } => target_end < n,
            Token::Code { ticks, close } => close + ticks <= n,
            Token::Pair { strike, close } => close + 2 <= n,
            Token::Em { close } => close + 1 <= n,
            Token::Plain => at + 1 <= n,
        },
    ensures
        end == token_end(at as int, token),
{
    match token {
        Token::Escape => at + 2,
        Token::Link { image: _, label: _, label_end: _, target: _, target_end } => target_end + 1,
        Token::Code { ticks, close } => close + ticks,
        Token::Pair { strike: _, close } => close + 2,
        Token::Em { close } => close + 1,
        Token::Plain => at + 1,
    }
}

/// The pieces of a fragment at a depth of decoration.
pub fn inline_chars(line: &[char], depth: u8) -> (out: Vec<MdInline>)
    ensures
        pieces(out@) == inline(line@, depth as nat),
    decreases levels(depth as nat), 1int,
{
    let mut out: Vec<MdInline> = Vec::new();
    if depth > MAX_INLINE_DEPTH {
        let plain = plain_text::plain_inline_chars(line);
        out.push(MdInline::Text(string_of(plain.as_slice())));
        assert(pieces(out@) =~= inline(line@, depth as nat));
        return out;
    }
    let mut plain: Vec<char> = Vec::new();
    let mut at: usize = 0;
    let ghost goal = inline(line@, depth as nat);
    assert(plain@ =~= Seq::empty());
    assert(pieces(out@) + inline_from(line@, 0, plain@, depth as nat) =~= goal);
    while at < line.len()
        invariant
            at <= line@.len(),
            depth <= 4,
            pieces(out@) + inline_from(line@, at as int, plain@, depth as nat) == goal,
        decreases line.len() - at,
    {
        let ghost before = pieces(out@);
        let ghost gathered = plain@;
        let ghost tail = inline_from(line@, at as int, plain@, depth as nat);
        let token = find_token(line, at);
        let end: usize = end_of_token(at, token, line.len());
        match token {
            Token::Escape => {
                plain.push(line[at + 1]);
            },
            Token::Plain => {
                plain.push(line[at]);
            },
            _ => {
                let piece = make_piece(line, at, token, depth);
                flush_plain(&mut out, &mut plain);
                let ghost flushed = pieces(out@);
                push_piece(&mut out, piece);
                proof {
                    assert(plain@ =~= Seq::empty());
                    let rest = inline_from(line@, end as int, Seq::empty(), depth as nat);
                    assert(tail == plain_piece(gathered) + seq![piece@] + rest);
                    assert(pieces(out@) + rest =~= before + tail);
                }
            },
        }
        at = end;
    }
    assert(inline_from(line@, at as int, plain@, depth as nat) == plain_piece(plain@));
    flush_plain(&mut out, &mut plain);
    out
}

/// The pieces of a fragment at a depth of decoration.
pub fn render_markdown_inline(value: &str, depth: u8) -> (out: Vec<MdInline>)
    ensures
        pieces(out@) == inline(value@, depth as nat),
{
    let line = chars_of(value);
    inline_chars(line.as_slice(), depth)
}

/// Below the greatest depth a fragment is one piece of plain text.
pub proof fn deep_decoration_is_plain_text(line: Seq<char>, depth: nat)
    requires
        depth > MAX_INLINE_DEPTH,
    ensures
        inline(line, depth) == seq![MdView::Text(plain_text::plain_inline(line))],
{
}

proof fn lemma_first_mark(line: Seq<char>, mark: Seq<char>, from: int, at: int)
    requires
        0 <= from <= at,
        mark.len() > 0,
        text::stands_at(line, at, mark),
        forall|i: int| from <= i < at ==> !#[trigger] text::stands_at(line, i, mark),
    ensures
        first_mark(line, mark, from) == Some(at),
    decreases at - from,
{
    if from < at {
        assert(!text::stands_at(line, from, mark));
        lemma_first_mark(line, mark, from + 1, at);
    }
}

/// What a mark opens is closed by the first such mark behind it, unless a backslash stands
/// before that one or nothing stands between the two.
pub proof fn the_first_mark_closes(line: Seq<char>, mark: Seq<char>, start: int, close: int)
    requires
        0 <= start < close,
        mark.len() > 0,
        text::stands_at(line, close, mark),
        forall|i: int| start <= i < close ==> !#[trigger] text::stands_at(line, i, mark),
        line[close - 1] != '\\',
    ensures
        closing(line, mark, start, start) == Some(close),
{
    lemma_first_mark(line, mark, start, close);
}

/// Text between two asterisks or underscores on each side is strong, and between two tildes
/// struck; what stands between them is read in turn, one level deeper.
pub proof fn doubled_marks_make_strong_or_struck_text(
    line: Seq<char>,
    at: int,
    close: int,
    depth: nat,
)
    requires
        0 <= at,
        at + 2 < close,
        close + 1 < line.len() <= usize::MAX,
        depth <= 4,
        line[at] == '*' || line[at] == '_' || line[at] == '~',
        line[at + 1] == line[at],
        line[close] == line[at],
        line[close + 1] == line[at],
        line[close - 1] != '\\',
        forall|i: int| at + 2 <= i < close ==> #[trigger] line[i] != line[at],
    ensures
        pair_at(line, at) == Some(
            Token::Pair { strike: line[at] == '~', close: close as usize },
        ),
        line[at] == '~' ==> piece_of(line, at, pair_at(line, at)->0, depth) == MdView::Strike(
            inline(line.subrange(at + 2, close), depth + 1),
        ),
        line[at] != '~' ==> piece_of(line, at, pair_at(line, at)->0, depth) == MdView::Strong(
            inline(line.subrange(at + 2, close), depth + 1),
        ),
        token_end(at, pair_at(line, at)->0) == close + 2,
{
    let mark = line[at];
    let pair = seq![mark, mark];
    assert(line.subrange(close, close + 2) =~= pair);
    assert forall|i: int| at + 2 <= i < close implies !#[trigger] text::stands_at(line, i, pair) by {
        if text::stands_at(line, i, pair) {
            assert(line.subrange(i, i + 2)[0] == line[i]);
        }
    }
    the_first_mark_closes(line, pair, at + 2, close);
}

/// Text between single asterisks or underscores that stands apart from its neighbours is
/// emphasised.
pub proof fn single_marks_make_emphasis(line: Seq<char>, at: int, close: int, depth: nat)
    requires
        0 <= at,
        at + 1 < close < line.len() <= usize::MAX,
        depth <= 4,
        line[at] == '*' || line[at] == '_',
        line[close] == line[at],
        line[close - 1] != '\\',
        forall|i: int| at + 1 <= i < close ==> #[trigger] line[i] != line[at],
        at == 0 || chars::white(line[at - 1]),
        !chars::white(line[at + 1]),
        close + 1 == line.len() || chars::white(line[close + 1]),
    ensures
        em_at(line, at) == Some(Token::Em { close: close as usize }),
        piece_of(line, at, em_at(line, at)->0, depth) == MdView::Em(
            inline(line.subrange(at + 1, close), depth + 1),
        ),
        token_end(at, em_at(line, at)->0) == close + 1,
{
    let mark = seq![line[at]];
    assert(line.subrange(close, close + 1) =~= mark);
    assert forall|i: int| at + 1 <= i < close implies !#[trigger] text::stands_at(line, i, mark) by {
        if text::stands_at(line, i, mark) {
            assert(line.subrange(i, i + 1)[0] == line[i]);
        }
    }
    the_first_mark_closes(line, mark, at + 1, close);
}

/// Text between two backticks is code as it stands, but for one blank at each end.
pub proof fn backticks_make_code(line: Seq<char>, at: int, close: int, depth: nat)
    requires
        0 <= at,
        at + 1 < close < line.len() <= usize::MAX,
        depth <= 4,
        line[at] == '`',
        line[close] == '`',
        line[close - 1] != '\\',
        forall|i: int| at + 1 <= i < close ==> #[trigger] line[i] != '`',
    ensures
        code_at(line, at) == Some(Token::Code { ticks: 1, close: close as usize }),
        piece_of(line, at, code_at(line, at)->0, depth) == MdView::Code(
            code_text(line.subrange(at + 1, close)),
        ),
        token_end(at, code_at(line, at)->0) == close + 1,
{
    assert(line[at + 1] != '`');
    assert(chars::run_end(line, at, '`') == at + 1) by {
        assert(chars::run_end(line, at + 1, '`') == at + 1);
    }
    let mark = ticks_of(1);
    assert(line.subrange(close, close + 1) =~= mark);
    assert forall|i: int| at + 1 <= i < close implies !#[trigger] text::stands_at(line, i, mark) by {
        if text::stands_at(line, i, mark) {
            assert(line.subrange(i, i + 1)[0] == line[i]);
            assert(mark[0] == '`');
        }
    }
    the_first_mark_closes(line, mark, at + 1, close);
}

/// Code loses one blank at each end and nothing else.
pub proof fn code_loses_one_blank_at_each_end(code: Seq<char>)
    ensures
        code_text(" "@ + code + " "@) == code,
        code.len() > 0 && code[0] != ' ' && code.last() != ' ' ==> code_text(code) == code,
{
    reveal_strlit(" ");
    let padded = " "@ + code + " "@;
    assert(padded[0] == ' ');
    assert(padded.skip(1) =~= code + " "@);
    assert((code + " "@).last() == ' ');
    assert((code + " "@).drop_last() =~= code);
}

proof fn lemma_next_of(text: Seq<char>, from: int, at: int, a: char, b: char)
    requires
        0 <= from <= at < text.len(),
        forall|i: int| from <= i < at ==> #[trigger] text[i] != a && text[i] != b,
        text[at] == a || text[at] == b,
    ensures
        chars::next_of(text, from, a, b) == at,
    decreases at - from,
{
    if from < at {
        assert(text[from] != a);
        lemma_next_of(text, from + 1, at, a, b);
    }
}

/// A label in brackets and a target in parentheses make a link, or an image behind an
/// exclamation mark. The label is read in turn, and the target without the white space
/// around it.
pub proof fn brackets_make_links_and_images(
    line: Seq<char>,
    open: int,
    label_end: int,
    end: int,
    depth: nat,
)
    requires
        0 <= open,
        open + 1 < label_end,
        label_end + 2 < end < line.len() <= usize::MAX,
        depth <= 4,
        line[open] == '[',
        forall|i: int| open < i < label_end ==> #[trigger] line[i] != ']' && line[i] != '\n',
        line[label_end] == ']',
        line[label_end + 1] == '(',
        forall|i: int| label_end + 1 < i < end ==> #[trigger] line[i] != ')' && line[i] != '\n',
        line[end] == ')',
    ensures
        link_at(line, open) is Some,
        piece_of(line, open, link_at(line, open)->0, depth) == (MdView::Link {
            label: inline(line.subrange(open + 1, label_end), depth + 1),
            target: chars::trim(line.subrange(label_end + 2, end)),
        }),
        token_end(open, link_at(line, open)->0) == end + 1,
        open > 0 && line[open - 1] == '!' ==> link_at(line, open - 1) is Some && piece_of(
            line,
            open - 1,
            link_at(line, open - 1)->0,
            depth,
        ) == (MdView::Image {
            label: inline(line.subrange(open + 1, label_end), depth + 1),
            target: chars::trim(line.subrange(label_end + 2, end)),
        }),
{
    lemma_next_of(line, open + 1, label_end, ']', '\n');
    lemma_next_of(line, label_end + 2, end, ')', '\n');
}

/// A mark that a backslash escapes is a character of the text. Otherwise a link comes
/// before code, code before strong or struck text, and that before emphasis.
pub proof fn marks_are_told_apart_in_order(line: Seq<char>, at: int)
    requires
        0 <= at < line.len(),
    ensures
        ({
            let token = token_at(line, at);
            let escape = line[at] == '\\' && at + 1 < line.len() && plain_text::escapable(
                line[at + 1],
            );
            &&& escape ==> token is Escape
            &&& !escape && link_at(line, at) is Some ==> token is Link
            &&& !escape && link_at(line, at) is None && code_at(line, at) is Some ==> token is Code
            &&& !escape && link_at(line, at) is None && code_at(line, at) is None && pair_at(
                line,
                at,
            ) is Some ==> token is Pair
            &&& !escape && link_at(line, at) is None && code_at(line, at) is None && pair_at(
                line,
                at,
            ) is None && em_at(line, at) is Some ==> token is Em
            &&& !escape && link_at(line, at) is None && code_at(line, at) is None && pair_at(
                line,
                at,
            ) is None && em_at(line, at) is None ==> token is Plain
        }),
{
}

/// A plain piece is its words; white space at its ends is kept by a blank that does not
/// break, and a piece of white space alone is a space.
pub proof fn plain_pieces_keep_their_edges(plain: Seq<char>)
    requires
        plain.len() > 0,
    ensures
        ({
            let words = plain_text::plain_inline(plain);
            let piece = plain_piece(plain);
            &&& words.len() > 0 && !chars::white(plain[0]) && !chars::white(plain.last()) ==> piece
                =~= seq![MdView::Text(Seq::<char>::empty() + words + Seq::<char>::empty())]
            &&& words.len() > 0 ==> piece.len() == 1 && piece[0] is Text
            &&& words.len() > 0 && chars::white(plain[0]) ==> piece[0]->Text_0[0] == '\u{a0}'
            &&& words.len() > 0 && chars::white(plain.last()) ==> piece[0]->Text_0.last() == '\u{a0}'
            &&& words.len() == 0 && chars::has_white(plain) ==> piece =~= seq![MdView::Space]
            &&& words.len() == 0 && !chars::has_white(plain) ==> piece.len() == 0
        }),
{
}

} // verus!
