//! Scanning runs of characters.

use crate::text::{self, chars_start_with};
use vstd::prelude::*;

verus! {

/// Whether a character is white space in the sense of Unicode.
pub open spec fn white(c: char) -> bool {
    let code = c as int;
    ||| 0x09 <= code <= 0x0d
    ||| code == 0x20
    ||| code == 0x85
    ||| code == 0xa0
    ||| code == 0x1680
    ||| 0x2000 <= code <= 0x200a
    ||| code == 0x2028
    ||| code == 0x2029
    ||| code == 0x202f
    ||| code == 0x205f
    ||| code == 0x3000
}

/// Whether a character is white space in the sense of Unicode.
pub fn is_white(c: char) -> (yes: bool)
    ensures
        yes == white(c),
{
    let code: u32 = c as u32;
    (0x09 <= code && code <= 0x0d) || code == 0x20 || code == 0x85 || code == 0xa0 || code == 0x1680
        || (0x2000 <= code && code <= 0x200a) || code == 0x2028 || code == 0x2029 || code == 0x202f
        || code == 0x205f || code == 0x3000
}

/// Whether a character is a decimal digit.
pub open spec fn digit(c: char) -> bool {
    '0' as int <= c as int <= '9' as int
}

pub fn is_digit(c: char) -> (yes: bool)
    ensures
        yes == digit(c),
{
    '0' <= c && c <= '9'
}

/// Whether a character is an unaccented letter.
pub open spec fn letter(c: char) -> bool {
    'a' as int <= c as int <= 'z' as int || 'A' as int <= c as int <= 'Z' as int
}

pub fn is_letter(c: char) -> (yes: bool)
    ensures
        yes == letter(c),
{
    ('a' <= c && c <= 'z') || ('A' <= c && c <= 'Z')
}

/// A letter in lower case; other characters stay.
pub open spec fn lower(c: char) -> char {
    if 'A' as int <= c as int <= 'Z' as int {
        (c as int + 32) as char
    } else {
        c
    }
}

pub fn to_lower(c: char) -> (out: char)
    ensures
        out == lower(c),
{
    if 'A' <= c && c <= 'Z' {
        (c as u8 + 32) as char
    } else {
        c
    }
}

/// The first place from `from` on that does not hold `c`.
pub open spec fn run_end(chars: Seq<char>, from: int, c: char) -> int
    decreases chars.len() - from,
{
    if 0 <= from < chars.len() && chars[from] == c {
        run_end(chars, from + 1, c)
    } else {
        from
    }
}

pub fn end_of_run(chars: &[char], from: usize, c: char) -> (end: usize)
    requires
        from <= chars@.len(),
    ensures
        end == run_end(chars@, from as int, c),
        from <= end <= chars@.len(),
{
    let mut i: usize = from;
    while i < chars.len() && chars[i] == c
        invariant
            from <= i <= chars@.len(),
            run_end(chars@, from as int, c) == run_end(chars@, i as int, c),
        decreases chars.len() - i,
    {
        i = i + 1;
    }
    i
}

/// The first place from `from` on that is not white space.
pub open spec fn white_end(chars: Seq<char>, from: int) -> int
    decreases chars.len() - from,
{
    if 0 <= from < chars.len() && white(chars[from]) {
        white_end(chars, from + 1)
    } else {
        from
    }
}

pub fn end_of_white(chars: &[char], from: usize) -> (end: usize)
    requires
        from <= chars@.len(),
    ensures
        end == white_end(chars@, from as int),
        from <= end <= chars@.len(),
{
    let mut i: usize = from;
    while i < chars.len() && is_white(chars[i])
        invariant
            from <= i <= chars@.len(),
            white_end(chars@, from as int) == white_end(chars@, i as int),
        decreases chars.len() - i,
    {
        i = i + 1;
    }
    i
}

pub proof fn white_end_is_in_range(chars: Seq<char>, from: int)
    requires
        0 <= from <= chars.len(),
    ensures
        from <= white_end(chars, from) <= chars.len(),
    decreases chars.len() - from,
{
    if from < chars.len() && white(chars[from]) {
        white_end_is_in_range(chars, from + 1);
    }
}

/// The first place from `from` on that holds `a` or `b`, the end if none does.
pub open spec fn next_of(chars: Seq<char>, from: int, a: char, b: char) -> int
    decreases chars.len() - from,
{
    if 0 <= from < chars.len() && chars[from] != a && chars[from] != b {
        next_of(chars, from + 1, a, b)
    } else {
        from
    }
}

pub fn find_next(chars: &[char], from: usize, a: char, b: char) -> (at: usize)
    requires
        from <= chars@.len(),
    ensures
        at == next_of(chars@, from as int, a, b),
        from <= at <= chars@.len(),
{
    let mut i: usize = from;
    while i < chars.len() && chars[i] != a && chars[i] != b
        invariant
            from <= i <= chars@.len(),
            next_of(chars@, from as int, a, b) == next_of(chars@, i as int, a, b),
        decreases chars.len() - i,
    {
        i = i + 1;
    }
    i
}

/// The characters from the first that is not white space.
pub open spec fn trim_start(chars: Seq<char>) -> Seq<char> {
    chars.skip(white_end(chars, 0))
}

/// The characters up to the last that is not white space.
pub open spec fn trim_end(chars: Seq<char>) -> Seq<char>
    decreases chars.len(),
{
    if chars.len() > 0 && white(chars.last()) {
        trim_end(chars.drop_last())
    } else {
        chars
    }
}

/// The characters without white space at either end.
pub open spec fn trim(chars: Seq<char>) -> Seq<char> {
    trim_end(trim_start(chars))
}

/// A copy of the characters from `from` to `to`.
pub fn slice_of(chars: &[char], from: usize, to: usize) -> (part: Vec<char>)
    requires
        from <= to <= chars@.len(),
    ensures
        part@ == chars@.subrange(from as int, to as int),
{
    let mut part: Vec<char> = Vec::new();
    let mut i: usize = from;
    while i < to
        invariant
            from <= i <= to <= chars@.len(),
            part@ == chars@.subrange(from as int, i as int),
        decreases to - i,
    {
        part.push(chars[i]);
        assert(chars@.subrange(from as int, i + 1) =~= chars@.subrange(from as int, i as int).push(
            chars@[i as int],
        ));
        i = i + 1;
    }
    part
}

/// A copy of the characters from `from` on.
pub fn tail_of(chars: &[char], from: usize) -> (part: Vec<char>)
    requires
        from <= chars@.len(),
    ensures
        part@ == chars@.skip(from as int),
{
    let part = slice_of(chars, from, chars.len());
    assert(part@ =~= chars@.skip(from as int));
    part
}

pub fn trimmed_start(chars: &[char]) -> (part: Vec<char>)
    ensures
        part@ == trim_start(chars@),
{
    let from: usize = end_of_white(chars, 0);
    tail_of(chars, from)
}

pub fn trimmed(chars: &[char]) -> (part: Vec<char>)
    ensures
        part@ == trim(chars@),
{
    let mut part = trimmed_start(chars);
    let ghost start = part@;
    while part.len() > 0 && is_white(part[part.len() - 1])
        invariant
            trim_end(part@) == trim_end(start),
        decreases part.len(),
    {
        let ghost before = part@;
        part.pop();
        assert(part@ =~= before.drop_last());
    }
    part
}

/// The words of the text, one blank between each two.
pub open spec fn squeezed(chars: Seq<char>) -> Seq<char>
    decreases chars.len(),
{
    if chars.len() == 0 {
        Seq::empty()
    } else {
        let before = squeezed(chars.drop_last());
        if white(chars.last()) {
            before
        } else if before.len() > 0 && white(chars[chars.len() - 2]) {
            before.push(' ').push(chars.last())
        } else {
            before.push(chars.last())
        }
    }
}

pub fn squeeze(chars: &[char]) -> (out: Vec<char>)
    ensures
        out@ == squeezed(chars@),
{
    let mut out: Vec<char> = Vec::new();
    let mut i: usize = 0;
    assert(chars@.take(0) =~= Seq::empty());
    while i < chars.len()
        invariant
            i <= chars@.len(),
            out@ == squeezed(chars@.take(i as int)),
        decreases chars.len() - i,
    {
        proof {
            let head = chars@.take(i + 1);
            assert(head.drop_last() =~= chars@.take(i as int));
            assert(head.last() == chars@[i as int]);
            if i == 0 {
                assert(squeezed(chars@.take(0)).len() == 0);
            }
        }
        let c: char = chars[i];
        if !is_white(c) {
            if out.len() > 0 && i > 0 && is_white(chars[i - 1]) {
                out.push(' ');
            }
            out.push(c);
        }
        i = i + 1;
    }
    assert(chars@.take(i as int) =~= chars@);
    out
}

/// Whether any character is white space.
pub open spec fn has_white(chars: Seq<char>) -> bool {
    exists|i: int| 0 <= i < chars.len() && white(#[trigger] chars[i])
}

pub fn contains_white(chars: &[char]) -> (yes: bool)
    ensures
        yes == has_white(chars@),
{
    let mut i: usize = 0;
    while i < chars.len()
        invariant
            i <= chars@.len(),
            forall|k: int| 0 <= k < i ==> !white(#[trigger] chars@[k]),
        decreases chars.len() - i,
    {
        if is_white(chars[i]) {
            assert(white(chars@[i as int]));
            return true;
        }
        i = i + 1;
    }
    false
}

/// The lines of a text; a carriage return, a line feed, or both in this order
/// end a line.
pub open spec fn lines(chars: Seq<char>) -> Seq<Seq<char>>
    decreases chars.len(),
{
    if chars.len() == 0 {
        seq![Seq::empty()]
    } else {
        let rest = chars.drop_last();
        let before = lines(rest);
        let c = chars.last();
        if c == '\n' && rest.len() > 0 && rest.last() == '\r' {
            before
        } else if c == '\n' || c == '\r' {
            before.push(Seq::empty())
        } else {
            before.drop_last().push(before.last().push(c))
        }
    }
}

/// The contents of a list of texts.
pub open spec fn views(parts: Seq<Vec<char>>) -> Seq<Seq<char>> {
    Seq::new(parts.len(), |i: int| parts[i]@)
}

pub fn split_lines(chars: &[char]) -> (parts: Vec<Vec<char>>)
    ensures
        views(parts@) == lines(chars@),
        parts@.len() > 0,
{
    let mut done: Vec<Vec<char>> = Vec::new();
    let mut line: Vec<char> = Vec::new();
    let mut i: usize = 0;
    assert(chars@.take(0) =~= Seq::empty());
    assert(views(done@).push(line@) =~= lines(chars@.take(0)));
    while i < chars.len()
        invariant
            i <= chars@.len(),
            views(done@).push(line@) == lines(chars@.take(i as int)),
        decreases chars.len() - i,
    {
        let c: char = chars[i];
        let ghost known = views(done@);
        let ghost current = line@;
        proof {
            let head = chars@.take(i + 1);
            assert(head.drop_last() =~= chars@.take(i as int));
            assert(head.last() == c);
            assert(known.push(current).drop_last() =~= known);
            if i > 0 {
                assert(chars@.take(i as int).last() == chars@[i - 1]);
            }
        }
        if c == '\n' && i > 0 && chars[i - 1] == '\r' {
        } else if c == '\n' || c == '\r' {
            let ghost before = done@;
            let mut ended: Vec<char> = Vec::new();
            std::mem::swap(&mut ended, &mut line);
            done.push(ended);
            assert(views(done@) =~= known.push(current));
            assert(line@ =~= Seq::empty());
        } else {
            line.push(c);
        }
        assert(views(done@).push(line@) =~= lines(chars@.take(i + 1)));
        i = i + 1;
    }
    let ghost known = views(done@);
    let ghost current = line@;
    done.push(line);
    assert(views(done@) =~= known.push(current));
    assert(chars@.take(i as int) =~= chars@);
    done
}

/// Texts one behind the other, with a separator between each two.
pub open spec fn joined_with(parts: Seq<Seq<char>>, separator: Seq<char>) -> Seq<char>
    decreases parts.len(),
{
    if parts.len() == 0 {
        Seq::empty()
    } else if parts.len() == 1 {
        parts[0]
    } else {
        joined_with(parts.drop_last(), separator) + separator + parts.last()
    }
}

/// Adds characters at the end.
pub fn extend_chars(out: &mut Vec<char>, more: &[char])
    ensures
        final(out)@ == old(out)@ + more@,
{
    let ghost start = out@;
    let mut i: usize = 0;
    assert(out@ =~= start + more@.take(0));
    while i < more.len()
        invariant
            i <= more@.len(),
            out@ == start + more@.take(i as int),
        decreases more.len() - i,
    {
        out.push(more[i]);
        assert(more@.take(i + 1) =~= more@.take(i as int).push(more@[i as int]));
        assert(out@ =~= start + more@.take(i + 1));
        i = i + 1;
    }
    assert(more@.take(i as int) =~= more@);
}

pub fn join_with(parts: &Vec<Vec<char>>, separator: &[char]) -> (out: Vec<char>)
    ensures
        out@ == joined_with(views(parts@), separator@),
{
    let mut out: Vec<char> = Vec::new();
    let ghost all = views(parts@);
    let mut i: usize = 0;
    assert(all.take(0) =~= Seq::empty());
    while i < parts.len()
        invariant
            i <= parts@.len(),
            all == views(parts@),
            out@ == joined_with(all.take(i as int), separator@),
        decreases parts.len() - i,
    {
        proof {
            let head = all.take(i + 1);
            assert(head.drop_last() =~= all.take(i as int));
            assert(head.last() == parts@[i as int]@);
        }
        if i > 0 {
            extend_chars(&mut out, separator);
        }
        let ghost before = out@;
        extend_chars(&mut out, parts[i].as_slice());
        if i == 0 {
            assert(out@ =~= parts@[0]@);
        }
        i = i + 1;
    }
    assert(all.take(i as int) =~= all);
    out
}

/// Squeezed text holds no white space but single blanks between words.
pub proof fn squeezed_text_is_tidy(chars: Seq<char>)
    ensures
        forall|i: int|
            0 <= i < squeezed(chars).len() && white(#[trigger] squeezed(chars)[i]) ==> {
                &&& squeezed(chars)[i] == ' '
                &&& 0 < i < squeezed(chars).len() - 1
                &&& !white(squeezed(chars)[i - 1])
                &&& !white(squeezed(chars)[i + 1])
            },
    decreases chars.len(),
{
    if chars.len() > 0 {
        squeezed_text_is_tidy(chars.drop_last());
        let before = squeezed(chars.drop_last());
        let now = squeezed(chars);
        assert(before.len() > 0 ==> !white(before[before.len() - 1]));
        assert forall|i: int| 0 <= i < now.len() && white(#[trigger] now[i]) implies {
            &&& now[i] == ' '
            &&& 0 < i < now.len() - 1
            &&& !white(now[i - 1])
            &&& !white(now[i + 1])
        } by {
            if i < before.len() {
                assert(now[i] == before[i]);
                assert(now[i - 1] == before[i - 1]);
                assert(now[i + 1] == before[i + 1]);
            } else if i > 0 {
                assert(now[i - 1] == before[i - 1]);
            }
        }
    }
}

/// A set of characters.
#[derive(Debug, Clone, Copy, PartialEq, Eq, Structural)]
pub enum Class {
    /// Decimal digits.
    Digit,
    /// Unaccented letters.
    Letter,
    /// Letters, digits, and the underscore.
    Word,
    /// What the name of a programming language is made of.
    Language,
    /// What the name of a tool or a tag is made of.
    Name,
}

/// Whether a character belongs to a set.
pub open spec fn member(class: Class, c: char) -> bool {
    match class {
        Class::Digit => digit(c),
        Class::Letter => letter(c),
        Class::Word => letter(c) || digit(c) || c == '_',
        Class::Language => letter(c) || digit(c) || c == '_' || c == '+' || c == '-' || c == '.',
        Class::Name => letter(c) || digit(c) || c == '_' || c == '.' || c == ':' || c == '-',
    }
}

pub fn is_member(class: Class, c: char) -> (yes: bool)
    ensures
        yes == member(class, c),
{
    match class {
        Class::Digit => is_digit(c),
        Class::Letter => is_letter(c),
        Class::Word => is_letter(c) || is_digit(c) || c == '_',
        Class::Language => is_letter(c) || is_digit(c) || c == '_' || c == '+' || c == '-' || c
            == '.',
        Class::Name => is_letter(c) || is_digit(c) || c == '_' || c == '.' || c == ':' || c == '-',
    }
}

/// The first place from `from` on that is not in a set.
pub open spec fn class_end(chars: Seq<char>, from: int, class: Class) -> int
    decreases chars.len() - from,
{
    if 0 <= from < chars.len() && member(class, chars[from]) {
        class_end(chars, from + 1, class)
    } else {
        from
    }
}

pub fn end_of_class(chars: &[char], from: usize, class: Class) -> (end: usize)
    requires
        from <= chars@.len(),
    ensures
        end == class_end(chars@, from as int, class),
        from <= end <= chars@.len(),
{
    let mut i: usize = from;
    while i < chars.len() && is_member(class, chars[i])
        invariant
            from <= i <= chars@.len(),
            class_end(chars@, from as int, class) == class_end(chars@, i as int, class),
        decreases chars.len() - i,
    {
        i = i + 1;
    }
    i
}

/// The text from a place on, with every occurrence of a part replaced.
pub open spec fn replaced(chars: Seq<char>, part: Seq<char>, with: Seq<char>, at: int) -> Seq<char>
    decreases chars.len() - at,
{
    if at < 0 || at >= chars.len() {
        Seq::empty()
    } else if part.len() > 0 && text::stands_at(chars, at, part) {
        with + replaced(chars, part, with, at + part.len())
    } else {
        seq![chars[at]] + replaced(chars, part, with, at + 1)
    }
}

pub fn replace(chars: &[char], part: &[char], with: &[char]) -> (out: Vec<char>)
    requires
        part@.len() > 0,
    ensures
        out@ == replaced(chars@, part@, with@, 0),
{
    let mut out: Vec<char> = Vec::new();
    let mut at: usize = 0;
    let ghost goal = replaced(chars@, part@, with@, 0);
    assert(out@ + goal =~= goal);
    while at < chars.len()
        invariant
            at <= chars@.len(),
            part@.len() > 0,
            out@ + replaced(chars@, part@, with@, at as int) == goal,
        decreases chars.len() - at,
    {
        let ghost before = out@;
        let ghost tail = replaced(chars@, part@, with@, at as int);
        if chars_start_with(chars, at, part) {
            extend_chars(&mut out, with);
            at = at + part.len();
        } else {
            out.push(chars[at]);
            at = at + 1;
        }
        assert(out@ + replaced(chars@, part@, with@, at as int) =~= before + tail);
    }
    assert(replaced(chars@, part@, with@, at as int) =~= Seq::empty());
    assert(out@ =~= out@ + replaced(chars@, part@, with@, at as int));
    out
}

proof fn lemma_white_end(chars: Seq<char>, from: int)
    requires
        0 <= from <= chars.len(),
    ensures
        from <= white_end(chars, from) <= chars.len(),
        forall|i: int| from <= i < white_end(chars, from) ==> white(#[trigger] chars[i]),
        white_end(chars, from) < chars.len() ==> !white(chars[white_end(chars, from)]),
    decreases chars.len() - from,
{
    if from < chars.len() && white(chars[from]) {
        lemma_white_end(chars, from + 1);
    }
}

proof fn lemma_trim_end(chars: Seq<char>)
    ensures
        trim_end(chars).len() <= chars.len(),
        trim_end(chars) == chars.take(trim_end(chars).len() as int),
        forall|i: int| trim_end(chars).len() <= i < chars.len() ==> white(#[trigger] chars[i]),
        trim_end(chars).len() > 0 ==> !white(trim_end(chars).last()),
    decreases chars.len(),
{
    if chars.len() > 0 && white(chars.last()) {
        let shorter = chars.drop_last();
        lemma_trim_end(shorter);
        assert(shorter.take(trim_end(chars).len() as int) =~= chars.take(
            trim_end(chars).len() as int,
        ));
        assert forall|i: int| trim_end(chars).len() <= i < chars.len() implies white(
            #[trigger] chars[i],
        ) by {
            if i < shorter.len() {
                assert(white(shorter[i]));
            }
        }
    } else {
        assert(chars.take(chars.len() as int) =~= chars);
    }
}

/// Trimming takes away white space at both ends and nothing else: what is left is the
/// part from the first to the last character that is not white space.
pub proof fn trimming_cuts_white_space_only(chars: Seq<char>) -> (cut: (int, int))
    ensures
        0 <= cut.0 <= cut.1 <= chars.len(),
        trim(chars) == chars.subrange(cut.0, cut.1),
        forall|i: int| 0 <= i < cut.0 ==> white(#[trigger] chars[i]),
        forall|i: int| cut.1 <= i < chars.len() ==> white(#[trigger] chars[i]),
        cut.0 < cut.1 ==> !white(chars[cut.0]) && !white(chars[cut.1 - 1]),
{
    let from = white_end(chars, 0);
    lemma_white_end(chars, 0);
    let rest = trim_start(chars);
    lemma_trim_end(rest);
    let to = from + trim(chars).len();
    assert(trim(chars) =~= chars.subrange(from, to));
    assert forall|i: int| to <= i < chars.len() implies white(#[trigger] chars[i]) by {
        assert(white(rest[i - from]));
    }
    if from < to {
        assert(trim(chars).last() == chars[to - 1]);
    }
    (from, to)
}

proof fn lemma_lines_end(chars: Seq<char>)
    ensures
        lines(chars).len() > 0,
    decreases chars.len(),
{
    if chars.len() > 0 {
        lemma_lines_end(chars.drop_last());
    }
}

/// The lines of a text hold no line break, and put together they are the text without
/// its line breaks.
pub proof fn lines_are_cut_at_line_breaks(chars: Seq<char>)
    ensures
        lines(chars).len() > 0,
        lines(chars).flatten() == chars.filter(|c: char| c != '\n' && c != '\r'),
        forall|i: int, j: int|
            #![trigger lines(chars)[i][j]]
            0 <= i < lines(chars).len() && 0 <= j < lines(chars)[i].len() ==> lines(chars)[i][j]
                != '\n' && lines(chars)[i][j] != '\r',
    decreases chars.len(),
{
    let kept = |c: char| c != '\n' && c != '\r';
    if chars.len() == 0 {
        let all = lines(chars);
        assert(all =~= Seq::empty().push(Seq::<char>::empty()));
        Seq::<Seq<char>>::empty().lemma_flatten_push(Seq::<char>::empty());
        assert(Seq::<Seq<char>>::empty().flatten() =~= Seq::<char>::empty());
        reveal(Seq::filter);
        assert(chars =~= Seq::empty());
    } else {
        let rest = chars.drop_last();
        let c = chars.last();
        let before = lines(rest);
        let now = lines(chars);
        lines_are_cut_at_line_breaks(rest);
        assert(chars =~= rest.push(c));
        rest.lemma_filter_push(c, kept);
        if c == '\n' && rest.len() > 0 && rest.last() == '\r' {
        } else if c == '\n' || c == '\r' {
            before.lemma_flatten_push(Seq::<char>::empty());
            assert(before.flatten() + Seq::<char>::empty() =~= before.flatten());
            assert forall|i: int, j: int|
                #![trigger now[i][j]]
                0 <= i < now.len() && 0 <= j < now[i].len() implies now[i][j] != '\n' && now[i][j]
                != '\r' by {
                if i < before.len() {
                    assert(now[i] == before[i]);
                    assert(before[i][j] == now[i][j]);
                }
            }
        } else {
            let head = before.drop_last();
            let last = before.last();
            assert(before =~= head.push(last));
            head.lemma_flatten_push(last);
            head.lemma_flatten_push(last.push(c));
            assert(head.flatten() + last.push(c) =~= (head.flatten() + last).push(c));
            assert forall|i: int, j: int|
                #![trigger now[i][j]]
                0 <= i < now.len() && 0 <= j < now[i].len() implies now[i][j] != '\n' && now[i][j]
                != '\r' by {
                if i < head.len() {
                    assert(now[i] == before[i]);
                    assert(before[i][j] == now[i][j]);
                } else if j < last.len() {
                    assert(before[head.len() as int][j] == last[j]);
                }
            }
        }
    }
}

/// A line feed or a carriage return begins a new line, except that the two together, in
/// the order carriage return and line feed, begin only one.
pub proof fn line_breaks_begin_lines(chars: Seq<char>, c: char)
    ensures
        c != '\n' && c != '\r' ==> lines(chars.push(c)).len() == lines(chars).len()
            && lines(chars.push(c)).last() == lines(chars).last().push(c),
        c == '\r' ==> lines(chars.push(c)) == lines(chars).push(Seq::empty()),
        c == '\n' && !(chars.len() > 0 && chars.last() == '\r') ==> lines(chars.push(c)) == lines(
            chars,
        ).push(Seq::empty()),
        c == '\n' && chars.len() > 0 && chars.last() == '\r' ==> lines(chars.push(c)) == lines(
            chars,
        ),
        lines(Seq::empty()) == seq![Seq::<char>::empty()],
{
    lemma_lines_end(chars);
    assert(chars.push(c).drop_last() =~= chars);
}

/// Squeezing a text keeps every character that is not white space, in order.
pub proof fn squeezing_keeps_the_characters(chars: Seq<char>)
    ensures
        squeezed(chars).filter(|c: char| !white(c)) == chars.filter(|c: char| !white(c)),
    decreases chars.len(),
{
    let kept = |c: char| !white(c);
    if chars.len() > 0 {
        let rest = chars.drop_last();
        let before = squeezed(rest);
        squeezing_keeps_the_characters(rest);
        assert(chars =~= rest.push(chars.last()));
        rest.lemma_filter_push(chars.last(), kept);
        if !white(chars.last()) {
            if before.len() > 0 && white(chars[chars.len() - 2]) {
                before.lemma_filter_push(' ', kept);
                before.push(' ').lemma_filter_push(chars.last(), kept);
            } else {
                before.lemma_filter_push(chars.last(), kept);
            }
        }
    } else {
        assert(chars =~= Seq::empty());
    }
}

proof fn lemma_squeezed_nonempty(chars: Seq<char>)
    requires
        chars.len() > 0,
        !white(chars.last()),
    ensures
        squeezed(chars).len() > 0,
        squeezed(chars).last() == chars.last(),
{
}

/// Words that white space keeps apart stay apart, by one blank; words that nothing keeps
/// apart stay together.
pub proof fn squeezing_keeps_words_apart(a: Seq<char>, gap: Seq<char>, b: Seq<char>)
    requires
        a.len() > 0,
        !white(a.last()),
        b.len() > 0,
        !white(b[0]),
        forall|i: int| 0 <= i < gap.len() ==> white(#[trigger] gap[i]),
    ensures
        gap.len() > 0 ==> squeezed(a + gap + b) == squeezed(a).push(' ') + squeezed(b),
        gap.len() == 0 ==> squeezed(a + gap + b) == squeezed(a) + squeezed(b),
    decreases b.len(),
{
    let whole = a + gap + b;
    let shorter = b.drop_last();
    lemma_squeezed_nonempty(a);
    if b.len() == 1 {
        lemma_squeezed_gap(a, gap);
        assert(whole.drop_last() =~= a + gap);
        assert(whole.last() == b[0]);
        assert(shorter =~= Seq::empty());
        assert(squeezed(b) =~= seq![b[0]]);
        if gap.len() > 0 {
            assert(whole[whole.len() - 2] == gap.last());
            assert(squeezed(whole) =~= squeezed(a).push(' ') + squeezed(b));
        } else {
            assert(whole[whole.len() - 2] == a.last());
            assert(squeezed(whole) =~= squeezed(a) + squeezed(b));
        }
    } else {
        assert(shorter[0] == b[0]);
        squeezing_keeps_words_apart(a, gap, shorter);
        assert(whole.drop_last() =~= a + gap + shorter);
        assert(whole.last() == b.last());
        assert(whole[whole.len() - 2] == b[b.len() - 2]);
        lemma_squeezed_head(shorter);
        if gap.len() > 0 {
            assert(squeezed(whole) =~= squeezed(a).push(' ') + squeezed(b));
        } else {
            assert(squeezed(whole) =~= squeezed(a) + squeezed(b));
        }
    }
}

proof fn lemma_squeezed_head(chars: Seq<char>)
    requires
        chars.len() > 0,
        !white(chars[0]),
    ensures
        squeezed(chars).len() > 0,
    decreases chars.len(),
{
    if chars.len() > 1 {
        assert(chars.drop_last()[0] == chars[0]);
        lemma_squeezed_head(chars.drop_last());
    }
}

proof fn lemma_squeezed_gap(a: Seq<char>, gap: Seq<char>)
    requires
        forall|i: int| 0 <= i < gap.len() ==> white(#[trigger] gap[i]),
    ensures
        squeezed(a + gap) == squeezed(a),
    decreases gap.len(),
{
    if gap.len() > 0 {
        let shorter = gap.drop_last();
        assert forall|i: int| 0 <= i < shorter.len() implies white(#[trigger] shorter[i]) by {
            assert(shorter[i] == gap[i]);
        }
        lemma_squeezed_gap(a, shorter);
        assert((a + gap).drop_last() =~= a + shorter);
        assert((a + gap).last() == gap.last());
    } else {
        assert(a + gap =~= a);
    }
}

proof fn lemma_replaced(chars: Seq<char>, part: char, with: char, at: int)
    requires
        0 <= at <= chars.len(),
    ensures
        replaced(chars, seq![part], seq![with], at).len() == chars.len() - at,
        forall|i: int|
            at <= i < chars.len() ==> #[trigger] replaced(chars, seq![part], seq![with], at)[i - at]
                == (if chars[i] == part {
                with
            } else {
                chars[i]
            }),
    decreases chars.len() - at,
{
    if at < chars.len() {
        lemma_replaced(chars, part, with, at + 1);
        let rest = replaced(chars, seq![part], seq![with], at + 1);
        let now = replaced(chars, seq![part], seq![with], at);
        assert(text::stands_at(chars, at, seq![part]) <==> chars[at] == part) by {
            if chars[at] == part {
                assert(chars.subrange(at, at + 1) =~= seq![part]);
            } else {
                assert(chars.subrange(at, at + 1)[0] != seq![part][0]);
            }
        }
        assert forall|i: int| at <= i < chars.len() implies #[trigger] now[i - at] == (if chars[i]
            == part {
            with
        } else {
            chars[i]
        }) by {
            if i > at {
                assert(now[i - at] == rest[i - (at + 1)]);
            }
        }
    }
}

/// Replacing one character by another changes exactly the places that hold it.
pub proof fn characters_are_replaced_in_place(chars: Seq<char>, part: char, with: char, i: int)
    requires
        0 <= i < chars.len(),
    ensures
        replaced(chars, seq![part], seq![with], 0).len() == chars.len(),
        replaced(chars, seq![part], seq![with], 0)[i] == (if chars[i] == part {
            with
        } else {
            chars[i]
        }),
{
    lemma_replaced(chars, part, with, 0);
    assert(replaced(chars, seq![part], seq![with], 0)[i - 0] == replaced(
        chars,
        seq![part],
        seq![with],
        0,
    )[i]);
}

/// A text in which a part does not occur is not changed by replacing the part.
pub proof fn other_text_is_not_replaced(chars: Seq<char>, part: Seq<char>, with: Seq<char>, at: int)
    requires
        0 <= at <= chars.len(),
        forall|i: int| at <= i < chars.len() ==> !#[trigger] text::stands_at(chars, i, part),
    ensures
        replaced(chars, part, with, at) == chars.skip(at),
    decreases chars.len() - at,
{
    if at < chars.len() {
        other_text_is_not_replaced(chars, part, with, at + 1);
        assert(!text::stands_at(chars, at, part));
        assert(chars.skip(at) =~= seq![chars[at]] + chars.skip(at + 1));
    } else {
        assert(chars.skip(at) =~= Seq::empty());
    }
}

/// The first place where a part stands is replaced, and the search goes on behind it.
pub proof fn the_first_occurrence_is_replaced(
    chars: Seq<char>,
    part: Seq<char>,
    with: Seq<char>,
    from: int,
    at: int,
)
    requires
        0 <= from <= at < chars.len(),
        part.len() > 0,
        text::stands_at(chars, at, part),
        forall|i: int| from <= i < at ==> !#[trigger] text::stands_at(chars, i, part),
    ensures
        replaced(chars, part, with, from) == chars.subrange(from, at) + with + replaced(
            chars,
            part,
            with,
            at + part.len(),
        ),
    decreases at - from,
{
    if from < at {
        the_first_occurrence_is_replaced(chars, part, with, from + 1, at);
        assert(!text::stands_at(chars, from, part));
        assert(chars.subrange(from, at) =~= seq![chars[from]] + chars.subrange(from + 1, at));
        assert(replaced(chars, part, with, from) =~= chars.subrange(from, at) + with + replaced(
            chars,
            part,
            with,
            at + part.len(),
        ));
    } else {
        assert(chars.subrange(from, at) =~= Seq::empty());
        assert(replaced(chars, part, with, from) =~= chars.subrange(from, at) + with + replaced(
            chars,
            part,
            with,
            at + part.len(),
        ));
    }
}

/// The upper and the lower case of a letter have the same lower case, and no other
/// characters share theirs.
pub proof fn lower_case_joins_cases(a: char, b: char)
    ensures
        lower(a) == lower(b) <==> a == b || letter(a) && letter(b) && (a as int == b as int + 32
            || b as int == a as int + 32),
        lower(a) == a <==> !('A' as int <= a as int <= 'Z' as int),
{
}

/// The characters of words are letters, digits and the underscore; the names of tools and
/// tags also hold dots, colons and dashes, and those of languages dots, dashes and plus
/// signs.
pub proof fn names_extend_words(c: char)
    ensures
        member(Class::Word, c) <==> letter(c) || digit(c) || c == '_',
        member(Class::Name, c) <==> member(Class::Word, c) || c == '.' || c == ':' || c == '-',
        member(Class::Language, c) <==> member(Class::Word, c) || c == '.' || c == '+' || c == '-',
        member(Class::Digit, c) ==> !member(Class::Letter, c),
        white(c) ==> !member(Class::Name, c) && !member(Class::Language, c),
{
}

/// Joined texts hold each text in order with the separator between each two.
pub proof fn texts_are_joined_in_order(
    parts: Seq<Seq<char>>,
    separator: Seq<char>,
    last: Seq<char>,
)
    ensures
        joined_with(Seq::empty(), separator) == Seq::<char>::empty(),
        joined_with(seq![last], separator) == last,
        parts.len() > 0 ==> joined_with(parts.push(last), separator) == joined_with(parts, separator)
            + separator + last,
{
    assert(parts.push(last).drop_last() =~= parts);
}

} // verus!
