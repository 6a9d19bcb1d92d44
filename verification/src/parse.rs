//! The grammar of the fragments that the page is cut into: the cells of a
//! table row, the row itself, and the span that holds a region's name.
//!
//! The grammar is stated over sequences of characters by the spec functions
//! of this module. Each gives, for a position in the text, where the rule
//! stops and which stretch of text it yields, or `None` where the text does
//! not match. The executable parsers compute exactly these.

use vstd::prelude::*;
use vstd::string::StringSliceAdditionalSpecFns;
use crate::error::GrammarError;
use crate::text::{chars_of, fold, fold_char, folded, occurs_at};

verus! {

/// A stretch of text found by a rule, and the position at which the rule stopped.
pub struct Piece {
    pub start: int,
    pub end: int,
    pub next: int,
}

/// A `Piece` in machine integers.
#[derive(Clone, Copy, Debug)]
pub struct Cut {
    pub start: usize,
    pub end: usize,
    pub next: usize,
}

impl View for Cut {
    type V = Piece;

    open spec fn view(&self) -> Piece {
        Piece { start: self.start as int, end: self.end as int, next: self.next as int }
    }
}

/// Space, tab, carriage return and line feed separate cells and carry no meaning.
pub open spec fn is_space(c: char) -> bool {
    c == ' ' || c == '\t' || c == '\r' || c == '\n'
}

/// The position after `tag`, where `tag` stands at `at` in `s`. Letters are
/// compared without regard to ASCII case; `tag` itself is in lower case.
pub open spec fn after_tag(s: Seq<char>, at: int, tag: Seq<char>) -> Option<int> {
    if occurs_at(folded(s), tag, at) {
        Some(at + tag.len())
    } else {
        None
    }
}

/// The first position at or after `at` that holds no white space.
pub open spec fn after_space(s: Seq<char>, at: int) -> int
    decreases s.len() - at,
{
    if 0 <= at < s.len() && is_space(s[at]) {
        after_space(s, at + 1)
    } else {
        at
    }
}

/// The position of the first `<` at or after `at`: text runs up to it.
/// Text that no `<` ends is no text.
pub open spec fn text_end(s: Seq<char>, at: int) -> Option<int>
    decreases s.len() - at,
{
    if at < 0 || at >= s.len() {
        None
    } else if s[at] == '<' {
        Some(at)
    } else {
        text_end(s, at + 1)
    }
}

/// Text in bold: `<strong>`, text, `</strong>`.
pub open spec fn strong(s: Seq<char>, at: int) -> Option<Piece> {
    match after_tag(s, at, "<strong>"@) {
        Some(start) => match text_end(s, start) {
            Some(end) => match after_tag(s, end, "</strong>"@) {
                Some(next) => Some(Piece { start, end, next }),
                None => None,
            },
            None => None,
        },
        None => None,
    }
}

/// What a cell or a span holds: text in bold, or else plain text.
pub open spec fn content(s: Seq<char>, at: int) -> Option<Piece> {
    match strong(s, at) {
        Some(piece) => Some(piece),
        None => match text_end(s, at) {
            Some(end) => Some(Piece { start: at, end, next: end }),
            None => None,
        },
    }
}

/// Content between the tags `open` and `close`.
pub open spec fn enclosed(s: Seq<char>, at: int, open: Seq<char>, close: Seq<char>) -> Option<
    Piece,
> {
    match after_tag(s, at, open) {
        Some(inside) => match content(s, inside) {
            Some(piece) => match after_tag(s, piece.next, close) {
                Some(next) => Some(Piece { start: piece.start, end: piece.end, next }),
                None => None,
            },
            None => None,
        },
        None => None,
    }
}

/// A cell: content between `<td>` and `</td>` or between `<th>` and `</th>`,
/// and the white space after it.
pub open spec fn cell(s: Seq<char>, at: int) -> Option<Piece> {
    let found = match enclosed(s, at, "<td>"@, "</td>"@) {
        Some(piece) => Some(piece),
        None => enclosed(s, at, "<th>"@, "</th>"@),
    };
    match found {
        Some(piece) => Some(
            Piece { start: piece.start, end: piece.end, next: after_space(s, piece.next) },
        ),
        None => None,
    }
}

/// The name of a region: content between `<span>` and `</span>`.
pub open spec fn span(s: Seq<char>, at: int) -> Option<Piece> {
    enclosed(s, at, "<span>"@, "</span>"@)
}

/// Two cells in a row. The second piece stops where the rule stops.
pub open spec fn two_cells(s: Seq<char>, at: int) -> Option<(Piece, Piece)> {
    match cell(s, at) {
        Some(first) => match cell(s, first.next) {
            Some(second) => Some((first, second)),
            None => None,
        },
        None => None,
    }
}

/// Three cells in a row, of which the third is read and dropped.
pub open spec fn three_cells(s: Seq<char>, at: int) -> Option<(Piece, Piece)> {
    match two_cells(s, at) {
        Some((first, second)) => match cell(s, second.next) {
            Some(third) => Some(
                (first, Piece { start: second.start, end: second.end, next: third.next }),
            ),
            None => None,
        },
        None => None,
    }
}

/// The cells of a row: three where there are three, else two.
pub open spec fn cells(s: Seq<char>, at: int) -> Option<(Piece, Piece)> {
    match three_cells(s, at) {
        Some(pair) => Some(pair),
        None => two_cells(s, at),
    }
}

/// A row: `<tr>`, white space, two or three cells, `</tr>`, white space.
pub open spec fn row(s: Seq<char>, at: int) -> Option<(Piece, Piece)> {
    match after_tag(s, at, "<tr>"@) {
        Some(inside) => match cells(s, after_space(s, inside)) {
            Some((first, second)) => match after_tag(s, second.next, "</tr>"@) {
                Some(next) => Some(
                    (
                        first,
                        Piece { start: second.start, end: second.end, next: after_space(s, next) },
                    ),
                ),
                None => None,
            },
            None => None,
        },
        None => None,
    }
}

/// The positions of a piece lie in order between `at` and the end of `s`.
pub open spec fn within(s: Seq<char>, at: int, piece: Piece) -> bool {
    0 <= at <= piece.start <= piece.end <= piece.next <= s.len()
}

/// What is left of `input` after a rule, and the text that the rule yields.
pub open spec fn one_text(input: Seq<char>, found: Option<Piece>) -> Option<
    (Seq<char>, Seq<char>),
> {
    match found {
        Some(piece) => Some(
            (input.subrange(piece.next, input.len() as int), input.subrange(piece.start, piece.end)),
        ),
        None => None,
    }
}

/// What is left of `input` after a rule, and the two texts that the rule yields.
pub open spec fn two_texts(input: Seq<char>, found: Option<(Piece, Piece)>) -> Option<
    (Seq<char>, (Seq<char>, Seq<char>)),
> {
    match found {
        Some((first, second)) => Some(
            (
                input.subrange(second.next, input.len() as int),
                (input.subrange(first.start, first.end), input.subrange(second.start, second.end)),
            ),
        ),
        None => None,
    }
}

/// The result `r` of a parser states `expected`: the same texts on success,
/// an error where nothing is expected.
pub open spec fn gives_one(
    r: Result<(&str, &str), GrammarError>,
    expected: Option<(Seq<char>, Seq<char>)>,
) -> bool {
    match r {
        Ok((rest, text)) => expected == Some((rest@, text@)),
        Err(_) => expected is None,
    }
}

/// As `gives_one`, for a parser that yields two texts.
pub open spec fn gives_two(
    r: Result<(&str, (&str, &str)), GrammarError>,
    expected: Option<(Seq<char>, (Seq<char>, Seq<char>))>,
) -> bool {
    match r {
        Ok((rest, (first, second))) => expected == Some((rest@, (first@, second@))),
        Err(_) => expected is None,
    }
}

fn find_tag(s: &[char], at: usize, tag: &str) -> (r: Option<usize>)
    requires
        tag.is_ascii(),
        at <= s.len(),
    ensures
        r matches Some(next) ==> after_tag(s@, at as int, tag@) == Some(next as int) && at <= next
            <= s.len(),
        r is None ==> after_tag(s@, at as int, tag@) is None,
{
    let bytes = tag.as_bytes();
    let n = bytes.len();
    proof {
        vstd::string::is_ascii_spec_bytes(tag);
    }
    if n > s.len() - at {
        return None;
    }
    let mut i: usize = 0;
    while i < n
        invariant
            tag.is_ascii(),
            n == tag@.len(),
            bytes@ == tag.spec_bytes(),
            at + n <= s.len(),
            i <= n,
            forall|j: int| 0 <= j < i ==> fold(s@[at + j]) == tag@[j],
        decreases n - i,
    {
        let seen = fold_char(s[at + i]);
        let wanted = bytes[i];
        proof {
            vstd::string::is_ascii_spec_bytes(tag);
        }
        if seen as u32 != wanted as u32 {
            assert(folded(s@).subrange(at as int, at + n)[i as int] != tag@[i as int]);
            return None;
        }
        i += 1;
    }
    assert(folded(s@).subrange(at as int, at + n) =~= tag@);
    Some(at + n)
}

fn skip_space(s: &[char], at: usize) -> (r: usize)
    requires
        at <= s.len(),
    ensures
        r == after_space(s@, at as int),
        at <= r <= s.len(),
{
    let mut i: usize = at;
    while i < s.len() && (s[i] == ' ' || s[i] == '\t' || s[i] == '\r' || s[i] == '\n')
        invariant
            at <= i <= s.len(),
            after_space(s@, at as int) == after_space(s@, i as int),
        decreases s.len() - i,
    {
        i += 1;
    }
    i
}

fn find_text_end(s: &[char], at: usize) -> (r: Option<usize>)
    requires
        at <= s.len(),
    ensures
        r matches Some(end) ==> text_end(s@, at as int) == Some(end as int) && at <= end < s.len(),
        r is None ==> text_end(s@, at as int) is None,
{
    let mut i: usize = at;
    while i < s.len()
        invariant
            at <= i <= s.len(),
            text_end(s@, at as int) == text_end(s@, i as int),
        decreases s.len() - i,
    {
        if s[i] == '<' {
            return Some(i);
        }
        i += 1;
    }
    None
}

fn find_strong(s: &[char], at: usize) -> (r: Option<Cut>)
    requires
        at <= s.len(),
    ensures
        r matches Some(cut) ==> strong(s@, at as int) == Some(cut@) && within(s@, at as int, cut@),
        r is None ==> strong(s@, at as int) is None,
{
    proof {
        reveal_strlit("<strong>");
        reveal_strlit("</strong>");
    }
    let start = match find_tag(s, at, "<strong>") {
        Some(start) => start,
        None => { return None; },
    };
    let end = match find_text_end(s, start) {
        Some(end) => end,
        None => { return None; },
    };
    match find_tag(s, end, "</strong>") {
        Some(next) => Some(Cut { start, end, next }),
        None => None,
    }
}

fn find_content(s: &[char], at: usize) -> (r: Option<Cut>)
    requires
        at <= s.len(),
    ensures
        r matches Some(cut) ==> content(s@, at as int) == Some(cut@) && within(s@, at as int, cut@),
        r is None ==> content(s@, at as int) is None,
{
    match find_strong(s, at) {
        Some(cut) => Some(cut),
        None => match find_text_end(s, at) {
            Some(end) => Some(Cut { start: at, end, next: end }),
            None => None,
        },
    }
}

fn find_enclosed(s: &[char], at: usize, open: &str, close: &str) -> (r: Option<Cut>)
    requires
        at <= s.len(),
        open.is_ascii(),
        close.is_ascii(),
    ensures
        r matches Some(cut) ==> enclosed(s@, at as int, open@, close@) == Some(cut@) && within(
            s@,
            at as int,
            cut@,
        ),
        r is None ==> enclosed(s@, at as int, open@, close@) is None,
{
    let inside = match find_tag(s, at, open) {
        Some(inside) => inside,
        None => { return None; },
    };
    let piece = match find_content(s, inside) {
        Some(piece) => piece,
        None => { return None; },
    };
    match find_tag(s, piece.next, close) {
        Some(next) => Some(Cut { start: piece.start, end: piece.end, next }),
        None => None,
    }
}

fn find_cell(s: &[char], at: usize) -> (r: Option<Cut>)
    requires
        at <= s.len(),
    ensures
        r matches Some(cut) ==> cell(s@, at as int) == Some(cut@) && within(s@, at as int, cut@),
        r is None ==> cell(s@, at as int) is None,
{
    proof {
        reveal_strlit("<td>");
        reveal_strlit("</td>");
        reveal_strlit("<th>");
        reveal_strlit("</th>");
    }
    let found = match find_enclosed(s, at, "<td>", "</td>") {
        Some(piece) => Some(piece),
        None => find_enclosed(s, at, "<th>", "</th>"),
    };
    match found {
        Some(piece) => Some(
            Cut { start: piece.start, end: piece.end, next: skip_space(s, piece.next) },
        ),
        None => None,
    }
}

fn find_span(s: &[char], at: usize) -> (r: Option<Cut>)
    requires
        at <= s.len(),
    ensures
        r matches Some(cut) ==> span(s@, at as int) == Some(cut@) && within(s@, at as int, cut@),
        r is None ==> span(s@, at as int) is None,
{
    proof {
        reveal_strlit("<span>");
        reveal_strlit("</span>");
    }
    find_enclosed(s, at, "<span>", "</span>")
}

fn find_two_cells(s: &[char], at: usize) -> (r: Option<(Cut, Cut)>)
    requires
        at <= s.len(),
    ensures
        r matches Some((first, second)) ==> two_cells(s@, at as int) == Some((first@, second@))
            && within(s@, at as int, first@) && within(s@, first@.next, second@),
        r is None ==> two_cells(s@, at as int) is None,
{
    let first = match find_cell(s, at) {
        Some(first) => first,
        None => { return None; },
    };
    match find_cell(s, first.next) {
        Some(second) => Some((first, second)),
        None => None,
    }
}

fn find_three_cells(s: &[char], at: usize) -> (r: Option<(Cut, Cut)>)
    requires
        at <= s.len(),
    ensures
        r matches Some((first, second)) ==> three_cells(s@, at as int) == Some((first@, second@))
            && within(s@, at as int, first@) && within(s@, first@.next, second@),
        r is None ==> three_cells(s@, at as int) is None,
{
    let (first, second) = match find_two_cells(s, at) {
        Some(pair) => pair,
        None => { return None; },
    };
    match find_cell(s, second.next) {
        Some(third) => Some(
            (first, Cut { start: second.start, end: second.end, next: third.next }),
        ),
        None => None,
    }
}

fn find_row(s: &[char], at: usize) -> (r: Option<(Cut, Cut)>)
    requires
        at <= s.len(),
    ensures
        r matches Some((first, second)) ==> row(s@, at as int) == Some((first@, second@))
            && within(s@, at as int, first@) && within(s@, first@.next, second@),
        r is None ==> row(s@, at as int) is None,
{
    proof {
        reveal_strlit("<tr>");
        reveal_strlit("</tr>");
    }
    let inside = match find_tag(s, at, "<tr>") {
        Some(inside) => inside,
        None => { return None; },
    };
    let from = skip_space(s, inside);
    let found = match find_three_cells(s, from) {
        Some(pair) => Some(pair),
        None => find_two_cells(s, from),
    };
    let (first, second) = match found {
        Some(pair) => pair,
        None => { return None; },
    };
    match find_tag(s, second.next, "</tr>") {
        Some(next) => Some(
            (first, Cut { start: second.start, end: second.end, next: skip_space(s, next) }),
        ),
        None => None,
    }
}

fn take_one<'a>(input: &'a str, len: usize, found: Option<Cut>) -> (r: Result<
    (&'a str, &'a str),
    GrammarError,
>)
    requires
        len == input@.len(),
        found matches Some(cut) ==> within(input@, 0, cut@),
    ensures
        gives_one(
            r,
            one_text(
                input@,
                match found {
                    Some(cut) => Some(cut@),
                    None => None,
                },
            ),
        ),
{
    match found {
        Some(cut) => Ok(
            (input.substring_char(cut.next, len), input.substring_char(cut.start, cut.end)),
        ),
        None => Err(GrammarError),
    }
}

fn take_two<'a>(input: &'a str, len: usize, found: Option<(Cut, Cut)>) -> (r: Result<
    (&'a str, (&'a str, &'a str)),
    GrammarError,
>)
    requires
        len == input@.len(),
        found matches Some((first, second)) ==> within(input@, 0, first@) && within(
            input@,
            first@.next,
            second@,
        ),
    ensures
        gives_two(
            r,
            two_texts(
                input@,
                match found {
                    Some((first, second)) => Some((first@, second@)),
                    None => None,
                },
            ),
        ),
{
    match found {
        Some((first, second)) => Ok(
            (
                input.substring_char(second.next, len),
                (
                    input.substring_char(first.start, first.end),
                    input.substring_char(second.start, second.end),
                ),
            ),
        ),
        None => Err(GrammarError),
    }
}

/// Reads the content of a cell or a span from the start of `input`: text in
/// bold, or else plain text up to the next `<`.
pub fn parse_content<'a>(input: &'a str) -> (r: Result<(&'a str, &'a str), GrammarError>)
    ensures
        gives_one(r, one_text(input@, content(input@, 0))),
{
    let chars = chars_of(input);
    take_one(input, chars.len(), find_content(chars.as_slice(), 0))
}

/// Reads one cell, `<td>` or `<th>`, from the start of `input`, with the
/// white space that follows it.
pub fn parse_td<'a>(input: &'a str) -> (r: Result<(&'a str, &'a str), GrammarError>)
    ensures
        gives_one(r, one_text(input@, cell(input@, 0))),
{
    let chars = chars_of(input);
    take_one(input, chars.len(), find_cell(chars.as_slice(), 0))
}

/// Reads text in bold from the start of `input`.
pub fn parse_strong<'a>(input: &'a str) -> (r: Result<(&'a str, &'a str), GrammarError>)
    ensures
        gives_one(r, one_text(input@, strong(input@, 0))),
{
    let chars = chars_of(input);
    take_one(input, chars.len(), find_strong(chars.as_slice(), 0))
}

/// Reads two cells from the start of `input`.
pub fn parse_two<'a>(input: &'a str) -> (r: Result<(&'a str, (&'a str, &'a str)), GrammarError>)
    ensures
        gives_two(r, two_texts(input@, two_cells(input@, 0))),
{
    let chars = chars_of(input);
    take_two(input, chars.len(), find_two_cells(chars.as_slice(), 0))
}

/// Reads three cells from the start of `input` and yields the first two.
pub fn parse_three<'a>(input: &'a str) -> (r: Result<
    (&'a str, (&'a str, &'a str)),
    GrammarError,
>)
    ensures
        gives_two(r, two_texts(input@, three_cells(input@, 0))),
{
    let chars = chars_of(input);
    take_two(input, chars.len(), find_three_cells(chars.as_slice(), 0))
}

/// Reads the name of a region, held in a `<span>`, from the start of `input`.
pub fn parse_span<'a>(input: &'a str) -> (r: Result<(&'a str, &'a str), GrammarError>)
    ensures
        gives_one(r, one_text(input@, span(input@, 0))),
{
    let chars = chars_of(input);
    take_one(input, chars.len(), find_span(chars.as_slice(), 0))
}

/// Reads a table row from the start of `input` and yields the texts of its
/// first two cells.
pub fn parse_tr<'a>(input: &'a str) -> (r: Result<(&'a str, (&'a str, &'a str)), GrammarError>)
    ensures
        gives_two(r, two_texts(input@, row(input@, 0))),
{
    let chars = chars_of(input);
    take_two(input, chars.len(), find_row(chars.as_slice(), 0))
}

} // verus!
