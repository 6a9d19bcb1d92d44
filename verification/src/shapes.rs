//! The rows that the grammar reads, described by how they are built: tags
//! in any case, text, and white space. Every row built this way is read
//! back as the texts of its first two cells.

use vstd::prelude::*;
use crate::parse::{
    after_space, after_tag, cell, cells, content, enclosed, is_space, row, span, strong,
    text_end, three_cells, two_cells, two_texts, Piece,
};
use crate::text::{fold, folded, occurs_at};

verus! {

/// `t` is `tag`, written in any ASCII case.
pub open spec fn spells(t: Seq<char>, tag: Seq<char>) -> bool {
    folded(t) == tag
}

/// Text of a cell: any characters but `<`.
pub open spec fn is_text(t: Seq<char>) -> bool {
    forall|i: int| 0 <= i < t.len() ==> #[trigger] t[i] != '<'
}

/// White space only.
pub open spec fn is_blank(w: Seq<char>) -> bool {
    forall|i: int| 0 <= i < w.len() ==> is_space(#[trigger] w[i])
}

/// No white space stands at `at` in `s`: `s` ends there, or goes on with
/// something else.
pub open spec fn no_space_at(s: Seq<char>, at: int) -> bool {
    at >= s.len() || (0 <= at && !is_space(s[at]))
}

/// How a cell is built: its opening and closing tag as written, its text,
/// the tags around the text where it is in bold, and the white space after
/// the cell.
pub struct CellShape {
    pub open: Seq<char>,
    pub bold: Option<(Seq<char>, Seq<char>)>,
    pub text: Seq<char>,
    pub close: Seq<char>,
    pub blank: Seq<char>,
}

impl CellShape {
    /// The parts are what they are meant to be: a pair of cell tags of one
    /// kind, text without `<`, tags for bold where there are any, and white
    /// space.
    pub open spec fn is_cell(self) -> bool {
        &&& (spells(self.open, "<td>"@) && spells(self.close, "</td>"@)) || (spells(
            self.open,
            "<th>"@,
        ) && spells(self.close, "</th>"@))
        &&& is_text(self.text)
        &&& is_blank(self.blank)
        &&& self.bold matches Some((open, close)) ==> spells(open, "<strong>"@) && spells(
            close,
            "</strong>"@,
        )
    }

    /// What stands between the tags of the cell.
    pub open spec fn inner(self) -> Seq<char> {
        match self.bold {
            Some((open, close)) => open + self.text + close,
            None => self.text,
        }
    }

    /// The markup of the cell.
    pub open spec fn markup(self) -> Seq<char> {
        self.open + self.inner() + self.close + self.blank
    }

    /// Where the text begins in the markup of the cell.
    pub open spec fn text_start(self) -> int {
        match self.bold {
            Some((open, _)) => (self.open.len() + open.len()) as int,
            None => self.open.len() as int,
        }
    }
}

/// Where the text of a cell is found when the cell stands at `at`.
pub open spec fn text_piece(at: int, shape: CellShape, next: int) -> Piece {
    Piece {
        start: at + shape.text_start(),
        end: at + shape.text_start() + shape.text.len(),
        next,
    }
}

/// How a row is built: its tags as written, two cells and maybe a third,
/// and the white space after the opening and after the closing tag.
pub struct RowShape {
    pub open: Seq<char>,
    pub lead: Seq<char>,
    pub first: CellShape,
    pub second: CellShape,
    pub third: Option<CellShape>,
    pub close: Seq<char>,
    pub trail: Seq<char>,
}

impl RowShape {
    /// The parts are what they are meant to be.
    pub open spec fn is_row(self) -> bool {
        &&& spells(self.open, "<tr>"@)
        &&& is_blank(self.lead)
        &&& self.first.is_cell()
        &&& self.second.is_cell()
        &&& self.third matches Some(third) ==> third.is_cell()
        &&& spells(self.close, "</tr>"@)
        &&& is_blank(self.trail)
    }

    /// The markup of the third cell, where there is one.
    pub open spec fn extra(self) -> Seq<char> {
        match self.third {
            Some(third) => third.markup(),
            None => Seq::empty(),
        }
    }

    /// The markup of the row.
    pub open spec fn markup(self) -> Seq<char> {
        self.open + self.lead + self.first.markup() + self.second.markup() + self.extra()
            + self.close + self.trail
    }
}

/// Where two texts stand one after the other, each of them stands at its place.
pub proof fn lemma_occurs_apart(s: Seq<char>, at: int, a: Seq<char>, b: Seq<char>)
    requires
        occurs_at(s, a + b, at),
    ensures
        occurs_at(s, a, at),
        occurs_at(s, b, at + a.len()),
{
    let whole = s.subrange(at, at + (a + b).len());
    assert(s.subrange(at, at + a.len()) =~= whole.subrange(0, a.len() as int));
    assert(whole.subrange(0, a.len() as int) =~= a);
    assert(s.subrange(at + a.len(), at + a.len() + b.len()) =~= whole.subrange(
        a.len() as int,
        (a + b).len() as int,
    ));
    assert(whole.subrange(a.len() as int, (a + b).len() as int) =~= b);
}

/// A tag written in any case is found as the tag.
pub proof fn lemma_tag_found(s: Seq<char>, at: int, t: Seq<char>, tag: Seq<char>)
    requires
        occurs_at(s, t, at),
        spells(t, tag),
    ensures
        after_tag(s, at, tag) == Some(at + t.len()),
        tag.len() == t.len(),
{
    assert(folded(t).len() == t.len());
    assert(folded(s).subrange(at, at + tag.len()) =~= folded(t)) by {
        assert forall|i: int| 0 <= i < t.len() implies folded(s).subrange(at, at + tag.len())[i]
            == folded(t)[i] by {
            assert(s.subrange(at, at + t.len())[i] == t[i]);
        }
    }
}

/// Where one character is not the one the tag has at its place, the tag is
/// not there.
pub proof fn lemma_tag_missing(s: Seq<char>, at: int, tag: Seq<char>, k: int)
    requires
        0 <= at,
        0 <= k < tag.len(),
        at + k >= s.len() || fold(s[at + k]) != tag[k],
    ensures
        after_tag(s, at, tag) is None,
{
    if occurs_at(folded(s), tag, at) {
        assert(folded(s).subrange(at, at + tag.len())[k] == tag[k]);
    }
}

/// Folding the case of a character gives `<` or `/` only for the character itself.
pub proof fn lemma_fold_keeps_marks(c: char)
    ensures
        fold(c) == '<' ==> c == '<',
        fold(c) == '/' ==> c == '/',
        c == '<' ==> fold(c) == '<',
        c == '/' ==> fold(c) == '/',
{
}

/// Text is read up to the `<` that follows it.
pub proof fn lemma_text_found(s: Seq<char>, at: int, text: Seq<char>)
    requires
        occurs_at(s, text, at),
        is_text(text),
        at + text.len() < s.len(),
        s[at + text.len()] == '<',
    ensures
        text_end(s, at) == Some(at + text.len()),
    decreases text.len(),
{
    if text.len() > 0 {
        assert(s.subrange(at, at + text.len())[0] == text[0]);
        let rest = text.skip(1);
        assert(s.subrange(at + 1, at + 1 + rest.len()) =~= rest) by {
            assert forall|i: int| 0 <= i < rest.len() implies s.subrange(
                at + 1,
                at + 1 + rest.len(),
            )[i] == rest[i] by {
                assert(s.subrange(at, at + text.len())[i + 1] == text[i + 1]);
            }
        }
        assert(is_text(rest)) by {
            assert forall|i: int| 0 <= i < rest.len() implies #[trigger] rest[i] != '<' by {
                assert(rest[i] == text[i + 1]);
            }
        }
        lemma_text_found(s, at + 1, rest);
    }
}

/// White space is passed over up to what follows it.
pub proof fn lemma_blank_skipped(s: Seq<char>, at: int, blank: Seq<char>)
    requires
        occurs_at(s, blank, at),
        is_blank(blank),
        no_space_at(s, at + blank.len()),
    ensures
        after_space(s, at) == at + blank.len(),
    decreases blank.len(),
{
    if blank.len() > 0 {
        assert(s.subrange(at, at + blank.len())[0] == blank[0]);
        let rest = blank.skip(1);
        assert(s.subrange(at + 1, at + 1 + rest.len()) =~= rest) by {
            assert forall|i: int| 0 <= i < rest.len() implies s.subrange(
                at + 1,
                at + 1 + rest.len(),
            )[i] == rest[i] by {
                assert(s.subrange(at, at + blank.len())[i + 1] == blank[i + 1]);
            }
        }
        assert(is_blank(rest)) by {
            assert forall|i: int| 0 <= i < rest.len() implies is_space(#[trigger] rest[i]) by {
                assert(rest[i] == blank[i + 1]);
            }
        }
        lemma_blank_skipped(s, at + 1, rest);
    }
}

/// A tag as written begins with `<`, and a closing tag goes on with `/`.
pub proof fn lemma_tag_begins(t: Seq<char>, tag: Seq<char>)
    requires
        spells(t, tag),
        tag.len() >= 2,
        tag[0] == '<',
    ensures
        t.len() == tag.len(),
        t[0] == '<',
        !is_space(t[0]),
        tag[1] == '/' ==> t[1] == '/',
        fold(t[1]) == tag[1],
{
    assert(folded(t).len() == t.len());
    assert(folded(t)[0] == fold(t[0]));
    assert(folded(t)[1] == fold(t[1]));
    lemma_fold_keeps_marks(t[0]);
    lemma_fold_keeps_marks(t[1]);
}

/// The content of a cell or a span is read back: where the markup between
/// two tags stands at `at` and a closing tag follows, the content is the text.
pub proof fn lemma_content_reads_back(
    s: Seq<char>,
    at: int,
    shape: CellShape,
    close: Seq<char>,
    tag: Seq<char>,
)
    requires
        is_text(shape.text),
        shape.bold matches Some((o, c)) ==> spells(o, "<strong>"@) && spells(c, "</strong>"@),
        occurs_at(s, shape.inner() + close, at),
        spells(close, tag),
        tag.len() >= 2,
        tag[0] == '<',
        tag[1] == '/',
    ensures
        content(s, at) == Some(
            Piece {
                start: at + shape.text_start() - shape.open.len(),
                end: at + shape.text_start() - shape.open.len() + shape.text.len(),
                next: at + shape.inner().len(),
            },
        ),
{
    reveal_strlit("<strong>");
    reveal_strlit("</strong>");
    lemma_occurs_apart(s, at, shape.inner(), close);
    lemma_tag_begins(close, tag);
    assert(s.subrange(at + shape.inner().len(), at + shape.inner().len() + close.len())[0]
        == close[0]);
    assert(s.subrange(at + shape.inner().len(), at + shape.inner().len() + close.len())[1]
        == close[1]);
    match shape.bold {
        Some((o, c)) => {
            lemma_occurs_apart(s, at, o + shape.text, c);
            lemma_occurs_apart(s, at, o, shape.text);
            lemma_tag_found(s, at, o, "<strong>"@);
            lemma_tag_begins(c, "</strong>"@);
            let end = at + o.len() + shape.text.len();
            assert(s.subrange(end, end + c.len())[0] == c[0]);
            lemma_text_found(s, at + o.len(), shape.text);
            lemma_tag_found(s, end, c, "</strong>"@);
        },
        None => {
            let end = at + shape.text.len();
            // What follows is text or a closing tag, so no bold text begins here.
            if shape.text.len() > 0 {
                assert(s.subrange(at, at + shape.text.len())[0] == shape.text[0]);
                lemma_fold_keeps_marks(s[at]);
                lemma_tag_missing(s, at, "<strong>"@, 0);
            } else {
                lemma_fold_keeps_marks(s[at + 1]);
                lemma_tag_missing(s, at, "<strong>"@, 1);
            }
            assert(strong(s, at) is None);
            lemma_text_found(s, at, shape.text);
        },
    }
}

/// A cell that stands at `at` is read back: the text is found where it was
/// put, and the rule stops after the white space of the cell.
pub proof fn lemma_cell_reads_back(s: Seq<char>, at: int, shape: CellShape)
    requires
        shape.is_cell(),
        occurs_at(s, shape.markup(), at),
        no_space_at(s, at + shape.markup().len()),
    ensures
        cell(s, at) == Some(
            Piece {
                start: at + shape.text_start(),
                end: at + shape.text_start() + shape.text.len(),
                next: at + shape.markup().len(),
            },
        ),
{
    reveal_strlit("<td>");
    reveal_strlit("</td>");
    reveal_strlit("<th>");
    reveal_strlit("</th>");
    let inner = shape.inner();
    lemma_occurs_apart(s, at, shape.open + inner + shape.close, shape.blank);
    lemma_occurs_apart(s, at, shape.open + inner, shape.close);
    lemma_occurs_apart(s, at, shape.open, inner);
    let inside = at + shape.open.len();
    let closing = inside + inner.len();
    let ending = closing + shape.close.len();
    assert(occurs_at(s, inner + shape.close, inside)) by {
        assert(s.subrange(inside, inside + (inner + shape.close).len()) =~= s.subrange(
            inside,
            inside + inner.len(),
        ) + s.subrange(closing, closing + shape.close.len()));
    }
    lemma_blank_skipped(s, ending, shape.blank);
    if spells(shape.open, "<td>"@) && spells(shape.close, "</td>"@) {
        lemma_tag_found(s, at, shape.open, "<td>"@);
        lemma_content_reads_back(s, inside, shape, shape.close, "</td>"@);
        lemma_tag_found(s, closing, shape.close, "</td>"@);
        assert(enclosed(s, at, "<td>"@, "</td>"@) is Some);
    } else {
        lemma_tag_found(s, at, shape.open, "<th>"@);
        lemma_content_reads_back(s, inside, shape, shape.close, "</th>"@);
        lemma_tag_found(s, closing, shape.close, "</th>"@);
        // The opening tag is that of a header cell, not that of a data cell.
        assert(folded(shape.open)[2] == 'h');
        assert(folded(s).subrange(at, at + 4)[2] == fold(s[at + 2]));
        assert(s.subrange(at, at + shape.open.len())[2] == shape.open[2]);
        lemma_tag_missing(s, at, "<td>"@, 2);
        assert(enclosed(s, at, "<td>"@, "</td>"@) is None);
    }
}

/// How the name of a region is written: the tags of a span as written,
/// and between them the name, in bold or not. The name is the `text` of the
/// shape, whose `open` and `close` are the tags of the span.
pub open spec fn is_span(shape: CellShape) -> bool {
    &&& spells(shape.open, "<span>"@)
    &&& spells(shape.close, "</span>"@)
    &&& is_text(shape.text)
    &&& shape.bold matches Some((open, close)) ==> spells(open, "<strong>"@) && spells(
        close,
        "</strong>"@,
    )
}

/// A span that stands at `at` is read back: the name is found where it was
/// put, and the rule stops right after the closing tag.
pub proof fn lemma_span_reads_back(s: Seq<char>, at: int, shape: CellShape)
    requires
        is_span(shape),
        occurs_at(s, shape.open + shape.inner() + shape.close, at),
    ensures
        span(s, at) == Some(
            text_piece(at, shape, at + shape.open.len() + shape.inner().len() + shape.close.len()),
        ),
{
    reveal_strlit("<span>");
    reveal_strlit("</span>");
    let inner = shape.inner();
    lemma_occurs_apart(s, at, shape.open + inner, shape.close);
    lemma_occurs_apart(s, at, shape.open, inner);
    let inside = at + shape.open.len();
    let closing = inside + inner.len();
    assert(occurs_at(s, inner + shape.close, inside)) by {
        assert(s.subrange(inside, inside + (inner + shape.close).len()) =~= s.subrange(
            inside,
            inside + inner.len(),
        ) + s.subrange(closing, closing + shape.close.len()));
    }
    lemma_tag_found(s, at, shape.open, "<span>"@);
    lemma_content_reads_back(s, inside, shape, shape.close, "</span>"@);
    lemma_tag_found(s, closing, shape.close, "</span>"@);
}

/// No cell begins where a closing tag stands.
pub proof fn lemma_no_cell_at_closing_tag(s: Seq<char>, at: int, close: Seq<char>, tag: Seq<char>)
    requires
        occurs_at(s, close, at),
        spells(close, tag),
        tag.len() >= 2,
        tag[0] == '<',
        tag[1] == '/',
    ensures
        cell(s, at) is None,
{
    reveal_strlit("<td>");
    reveal_strlit("<th>");
    lemma_tag_begins(close, tag);
    assert(s.subrange(at, at + close.len())[1] == close[1]);
    lemma_fold_keeps_marks(s[at + 1]);
    lemma_tag_missing(s, at, "<td>"@, 1);
    lemma_tag_missing(s, at, "<th>"@, 1);
}

/// What begins with a tag does not begin with white space.
pub proof fn lemma_tag_is_no_space(s: Seq<char>, at: int, t: Seq<char>, tag: Seq<char>)
    requires
        occurs_at(s, t, at),
        spells(t, tag),
        tag.len() >= 2,
        tag[0] == '<',
    ensures
        no_space_at(s, at),
{
    lemma_tag_begins(t, tag);
    assert(s.subrange(at, at + t.len())[0] == t[0]);
}

/// A cell as written begins with a tag.
pub proof fn lemma_cell_is_no_space(s: Seq<char>, at: int, shape: CellShape)
    requires
        shape.is_cell(),
        occurs_at(s, shape.markup(), at),
    ensures
        no_space_at(s, at),
{
    reveal_strlit("<td>");
    reveal_strlit("<th>");
    lemma_occurs_apart(s, at, shape.open + shape.inner() + shape.close, shape.blank);
    lemma_occurs_apart(s, at, shape.open + shape.inner(), shape.close);
    lemma_occurs_apart(s, at, shape.open, shape.inner());
    if spells(shape.open, "<td>"@) {
        lemma_tag_is_no_space(s, at, shape.open, "<td>"@);
    } else {
        lemma_tag_is_no_space(s, at, shape.open, "<th>"@);
    }
}

/// Two or three cells in a row, followed by a closing tag, are read back as
/// the first two of them, and the rule stops at the closing tag.
pub proof fn lemma_cells_read_back(
    s: Seq<char>,
    at: int,
    first: CellShape,
    second: CellShape,
    third: Option<CellShape>,
    close: Seq<char>,
)
    requires
        first.is_cell(),
        second.is_cell(),
        third matches Some(cell) ==> cell.is_cell(),
        spells(close, "</tr>"@),
        occurs_at(s, first.markup(), at),
        occurs_at(s, second.markup(), at + first.markup().len()),
        third matches Some(cell) ==> occurs_at(
            s,
            cell.markup(),
            at + first.markup().len() + second.markup().len(),
        ),
        occurs_at(
            s,
            close,
            at + first.markup().len() + second.markup().len() + match third {
                Some(cell) => cell.markup().len(),
                None => 0,
            },
        ),
    ensures
        cells(s, at) == Some(
            (
                text_piece(at, first, at + first.markup().len()),
                text_piece(
                    at + first.markup().len(),
                    second,
                    at + first.markup().len() + second.markup().len() + match third {
                        Some(cell) => cell.markup().len(),
                        None => 0,
                    },
                ),
            ),
        ),
{
    reveal_strlit("</tr>");
    let at_two = at + first.markup().len();
    let at_extra = at_two + second.markup().len();
    lemma_cell_is_no_space(s, at_two, second);
    lemma_cell_reads_back(s, at, first);
    match third {
        Some(cell) => {
            let at_close = at_extra + cell.markup().len();
            lemma_cell_is_no_space(s, at_extra, cell);
            lemma_cell_reads_back(s, at_two, second);
            lemma_tag_is_no_space(s, at_close, close, "</tr>"@);
            lemma_cell_reads_back(s, at_extra, cell);
            assert(two_cells(s, at) is Some);
            assert(three_cells(s, at) is Some);
        },
        None => {
            lemma_tag_is_no_space(s, at_extra, close, "</tr>"@);
            lemma_cell_reads_back(s, at_two, second);
            lemma_no_cell_at_closing_tag(s, at_extra, close, "</tr>"@);
            assert(two_cells(s, at) is Some);
            assert(three_cells(s, at) is None);
        },
    }
}

impl RowShape {
    /// Where the first cell begins in the markup of the row.
    pub open spec fn at_first(self) -> int {
        (self.open.len() + self.lead.len()) as int
    }

    /// Where the second cell begins.
    pub open spec fn at_second(self) -> int {
        self.at_first() + self.first.markup().len()
    }

    /// Where the closing tag begins.
    pub open spec fn at_close(self) -> int {
        self.at_second() + self.second.markup().len() + self.extra().len()
    }

    /// Where the white space after the closing tag begins.
    pub open spec fn at_trail(self) -> int {
        self.at_close() + self.close.len()
    }
}

/// Each part of a row stands at its place in the markup of the row, whatever
/// follows the row.
pub proof fn lemma_row_parts_stand(shape: RowShape, rest: Seq<char>)
    ensures
        occurs_at(shape.markup() + rest, shape.open, 0),
        occurs_at(shape.markup() + rest, shape.lead, shape.open.len() as int),
        occurs_at(shape.markup() + rest, shape.first.markup(), shape.at_first()),
        occurs_at(shape.markup() + rest, shape.second.markup(), shape.at_second()),
        occurs_at(
            shape.markup() + rest,
            shape.extra(),
            shape.at_second() + shape.second.markup().len(),
        ),
        occurs_at(shape.markup() + rest, shape.close, shape.at_close()),
        occurs_at(shape.markup() + rest, shape.trail, shape.at_trail()),
        shape.at_trail() + shape.trail.len() == shape.markup().len(),
{
    let s = shape.markup() + rest;
    let one = shape.first.markup();
    let two = shape.second.markup();
    let extra = shape.extra();
    assert(occurs_at(s, shape.markup(), 0)) by {
        assert(s.subrange(0, shape.markup().len() as int) =~= shape.markup());
    }
    lemma_occurs_apart(
        s,
        0,
        shape.open + shape.lead + one + two + extra + shape.close,
        shape.trail,
    );
    lemma_occurs_apart(s, 0, shape.open + shape.lead + one + two + extra, shape.close);
    lemma_occurs_apart(s, 0, shape.open + shape.lead + one + two, extra);
    lemma_occurs_apart(s, 0, shape.open + shape.lead + one, two);
    lemma_occurs_apart(s, 0, shape.open + shape.lead, one);
    lemma_occurs_apart(s, 0, shape.open, shape.lead);
}

/// Every row of two or three cells, with tags in any case and white space
/// after its tags and its cells, is read back as the texts of its first two
/// cells, and what follows the row is left over. What follows must not
/// begin with white space, which would count as the row's own.
pub proof fn lemma_row_reads_back(shape: RowShape, rest: Seq<char>)
    requires
        shape.is_row(),
        rest.len() == 0 || !is_space(rest[0]),
    ensures
        two_texts(shape.markup() + rest, row(shape.markup() + rest, 0)) == Some(
            (rest, (shape.first.text, shape.second.text)),
        ),
{
    let s = shape.markup() + rest;
    let at_lead = shape.open.len() as int;
    let at_one = shape.at_first();
    let at_two = shape.at_second();
    let at_close = shape.at_close();
    let at_trail = shape.at_trail();
    let at_rest = shape.markup().len() as int;
    lemma_row_parts_stand(shape, rest);
    let first = text_piece(at_one, shape.first, at_two);
    let second = text_piece(at_two, shape.second, at_close);

    assert(after_tag(s, 0, "<tr>"@) == Some(at_lead)) by {
        lemma_tag_found(s, 0, shape.open, "<tr>"@);
    }
    assert(after_space(s, at_lead) == at_one) by {
        lemma_cell_is_no_space(s, at_one, shape.first);
        lemma_blank_skipped(s, at_lead, shape.lead);
    }
    assert(cells(s, at_one) == Some((first, second))) by {
        match shape.third {
            Some(cell) => {},
            None => {},
        }
        lemma_cells_read_back(s, at_one, shape.first, shape.second, shape.third, shape.close);
    }
    assert(after_tag(s, at_close, "</tr>"@) == Some(at_trail)) by {
        lemma_tag_found(s, at_close, shape.close, "</tr>"@);
    }
    assert(after_space(s, at_trail) == at_rest) by {
        if rest.len() > 0 {
            assert(s[at_rest] == rest[0]);
        }
        lemma_blank_skipped(s, at_trail, shape.trail);
    }
    assert(row(s, 0) == Some((first, text_piece(at_two, shape.second, at_rest))));
    assert(s.subrange(at_rest, s.len() as int) =~= rest);
    assert(s.subrange(first.start, first.end) == shape.first.text) by {
        lemma_text_stands(s, at_one, shape.first);
    }
    assert(s.subrange(second.start, second.end) == shape.second.text) by {
        lemma_text_stands(s, at_two, shape.second);
    }
}

/// The text of a cell stands in the markup where `text_start` says.
pub proof fn lemma_text_stands(s: Seq<char>, at: int, shape: CellShape)
    requires
        occurs_at(s, shape.markup(), at),
    ensures
        occurs_at(s, shape.text, at + shape.text_start()),
{
    lemma_occurs_apart(s, at, shape.open + shape.inner() + shape.close, shape.blank);
    lemma_occurs_apart(s, at, shape.open + shape.inner(), shape.close);
    lemma_occurs_apart(s, at, shape.open, shape.inner());
    match shape.bold {
        Some((o, c)) => {
            lemma_occurs_apart(s, at + shape.open.len(), o + shape.text, c);
            lemma_occurs_apart(s, at + shape.open.len(), o, shape.text);
        },
        None => {},
    }
}

} // verus!
