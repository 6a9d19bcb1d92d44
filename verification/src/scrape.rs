//! The extraction itself: the names of the regions are read from the
//! headers of a page, each name is paired with the table at the same place,
//! and the rows of the table give the codes of the area.

use vstd::prelude::*;
use crate::area::{lemma_put_ordered, ordered, put, Area, AreaView, Entry};
use crate::error::{GrammarError, ScrapeError};
use crate::page::{page_of, Page, PageView};
use crate::parse::{parse_span, parse_tr, row, span};
use crate::sac::lift;
use crate::sanitize::{lemma_inserted_breaks_vanish, line_break, strip_breaks, without_breaks};
use crate::shapes::{lemma_row_parts_stand, lemma_text_stands, RowShape};
use crate::text::{
    flat, has_substring, joined, lemma_substring_of_part, str_contains, text_views,
};

verus! {

/// Markup that carries a class is decoration and names no region.
pub open spec fn is_decorated(markup: Seq<char>) -> bool {
    has_substring(markup, "class"@)
}

/// A row that holds `SAC` heads a table and gives no code.
pub open spec fn is_header_row(markup: Seq<char>) -> bool {
    has_substring(markup, "SAC"@)
}

/// The names that the header candidates give, in their order: decorated
/// candidates are passed over, every other one must be a span and gives its
/// content. One candidate that is no span spoils them all.
pub open spec fn header_names(candidates: Seq<Seq<char>>) -> Option<Seq<Seq<char>>>
    decreases candidates.len(),
{
    if candidates.len() == 0 {
        Some(Seq::empty())
    } else {
        match header_names(candidates.drop_last()) {
            Some(names) => if is_decorated(candidates.last()) {
                Some(names)
            } else {
                match span(candidates.last(), 0) {
                    Some(piece) => Some(
                        names.push(candidates.last().subrange(piece.start, piece.end)),
                    ),
                    None => None,
                }
            },
            None => None,
        }
    }
}

/// The entry that a clean row gives: the code lifted from its first cell,
/// labelled with its second cell.
pub open spec fn row_entry(markup: Seq<char>) -> Option<Entry> {
    match row(markup, 0) {
        Some((first, second)) => Some(
            (
                lift(markup.subrange(first.start, first.end)),
                markup.subrange(second.start, second.end),
            ),
        ),
        None => None,
    }
}

/// The entries that the rows of a table give: header rows are passed over,
/// every other row is cleaned of line breaks, must match the grammar, and
/// puts its entry. One row that does not match spoils them all.
pub open spec fn table_entries(rows: Seq<Seq<char>>) -> Option<Seq<Entry>>
    decreases rows.len(),
{
    if rows.len() == 0 {
        Some(Seq::empty())
    } else {
        match table_entries(rows.drop_last()) {
            Some(entries) => if is_header_row(rows.last()) {
                Some(entries)
            } else {
                match row_entry(without_breaks(rows.last())) {
                    Some((code, label)) => Some(put(entries, code, label)),
                    None => None,
                }
            },
            None => None,
        }
    }
}

/// The first `count` areas: the name at each place with the entries of the
/// table at the same place.
pub open spec fn areas_upto(
    names: Seq<Seq<char>>,
    tables: Seq<Seq<Seq<char>>>,
    count: nat,
) -> Option<Seq<AreaView>>
    decreases count,
{
    if count == 0 {
        Some(Seq::empty())
    } else {
        match areas_upto(names, tables, (count - 1) as nat) {
            Some(areas) => match table_entries(tables[count - 1]) {
                Some(entries) => Some(
                    areas.push(AreaView { label: names[count - 1], entries }),
                ),
                None => None,
            },
            None => None,
        }
    }
}

/// The smaller of two lengths.
pub open spec fn shorter(a: nat, b: nat) -> nat {
    if a <= b {
        a
    } else {
        b
    }
}

/// The areas of a page: names and tables are paired by place, as far as
/// both go; what is left over of either is dropped.
pub open spec fn assembled(names: Seq<Seq<char>>, tables: Seq<Seq<Seq<char>>>) -> Option<
    Seq<AreaView>,
> {
    areas_upto(names, tables, shorter(names.len(), tables.len()))
}

/// What the extraction makes of the markup cut out of a page.
pub open spec fn page_areas(page: PageView) -> Result<Seq<AreaView>, ScrapeError> {
    match header_names(page.headers) {
        Some(names) => match assembled(names, page.tables) {
            Some(areas) => Ok(areas),
            None => Err(ScrapeError::Grammar),
        },
        None => Err(ScrapeError::Grammar),
    }
}

/// What the extraction makes of the text of a page.
pub open spec fn scraped(document: Seq<char>) -> Result<Seq<AreaView>, ScrapeError> {
    match page_of(document) {
        Ok(page) => page_areas(page),
        Err(e) => Err(e),
    }
}

/// What a sequence of areas stands for.
pub open spec fn area_views(areas: Seq<Area>) -> Seq<AreaView> {
    Seq::new(areas.len(), |i: int| areas[i]@)
}

/// What the result of an extraction stands for.
pub open spec fn outcome(r: Result<Vec<Area>, ScrapeError>) -> Result<Seq<AreaView>, ScrapeError> {
    match r {
        Ok(areas) => Ok(area_views(areas@)),
        Err(e) => Err(e),
    }
}

/// Reads the names of the regions from the header candidates of a page.
pub fn parse_header(input: &Page) -> (r: Result<Vec<String>, GrammarError>)
    ensures
        match r {
            Ok(names) => header_names(input@.headers) == Some(text_views(names@)),
            Err(_) => header_names(input@.headers) is None,
        },
{
    let ghost candidates = input@.headers;
    let mut names: Vec<String> = Vec::new();
    let mut i: usize = 0;
    while i < input.headers.len()
        invariant
            i <= input.headers.len(),
            candidates == input@.headers,
            header_names(candidates.take(i as int)) == Some(text_views(names@)),
        decreases input.headers.len() - i,
    {
        let markup = input.headers[i].as_str();
        proof {
            assert(candidates.take(i + 1).drop_last() =~= candidates.take(i as int));
            assert(candidates.take(i + 1).last() == markup@);
        }
        if !str_contains(markup, "class") {
            match parse_span(markup) {
                Ok((_, name)) => {
                    let ghost before = text_views(names@);
                    names.push(name.to_owned());
                    assert(text_views(names@) =~= before.push(name@));
                },
                Err(e) => {
                    proof {
                        lemma_header_names_spoiled(candidates, i + 1);
                    }
                    return Err(e);
                },
            }
        }
        i += 1;
    }
    assert(candidates.take(i as int) =~= candidates);
    Ok(names)
}

/// Reads a clean row and puts its entry into the area. A row that does not
/// match the grammar leaves the area as it was.
pub fn add_row(area: &mut Area, row: &str) -> (r: Result<(), GrammarError>)
    ensures
        final(area)@.label == old(area)@.label,
        match r {
            Ok(_) => row_entry(row@) matches Some((code, label)) && final(area)@.entries == put(
                old(area)@.entries,
                code,
                label,
            ),
            Err(_) => row_entry(row@) is None && final(area)@.entries == old(area)@.entries,
        },
{
    match parse_tr(row) {
        Ok((_, (code, label))) => {
            area.add(code, label);
            Ok(())
        },
        Err(e) => Err(e),
    }
}

/// Builds the area of one table: header rows are passed over, every other
/// row is cleaned of line breaks and read.
pub fn parse_table(name: &str, rows: &Vec<String>) -> (r: Result<Area, ScrapeError>)
    ensures
        match r {
            Ok(area) => area@.label == name@ && table_entries(text_views(rows@)) == Some(
                area@.entries,
            ),
            Err(e) => e == ScrapeError::Grammar && table_entries(text_views(rows@)) is None,
        },
{
    let ghost markup = text_views(rows@);
    let mut area = Area::new(name);
    let mut i: usize = 0;
    while i < rows.len()
        invariant
            i <= rows.len(),
            markup == text_views(rows@),
            area@.label == name@,
            table_entries(markup.take(i as int)) == Some(area@.entries),
        decreases rows.len() - i,
    {
        let row = rows[i].as_str();
        proof {
            assert(markup.take(i + 1).drop_last() =~= markup.take(i as int));
            assert(markup.take(i + 1).last() == row@);
        }
        if !str_contains(row, "SAC") {
            let clean = strip_breaks(row);
            if add_row(&mut area, clean.as_str()).is_err() {
                proof {
                    lemma_table_entries_spoiled(markup, i + 1);
                }
                return Err(ScrapeError::Grammar);
            }
        }
        i += 1;
    }
    assert(markup.take(i as int) =~= markup);
    Ok(area)
}

/// Pairs the names with the tables, place by place and as far as both go,
/// and builds the area of each pair.
pub fn assemble(names: &Vec<String>, tables: &Vec<Vec<String>>) -> (r: Result<
    Vec<Area>,
    ScrapeError,
>)
    ensures
        outcome(r) == match assembled(text_views(names@), crate::page::table_views(tables@)) {
            Some(areas) => Ok::<Seq<AreaView>, ScrapeError>(areas),
            None => Err::<Seq<AreaView>, ScrapeError>(ScrapeError::Grammar),
        },
{
    let ghost labels = text_views(names@);
    let ghost markup = crate::page::table_views(tables@);
    let count = if names.len() <= tables.len() {
        names.len()
    } else {
        tables.len()
    };
    let mut areas: Vec<Area> = Vec::new();
    let mut i: usize = 0;
    while i < count
        invariant
            i <= count,
            count == shorter(labels.len(), markup.len()),
            labels == text_views(names@),
            markup == crate::page::table_views(tables@),
            areas_upto(labels, markup, i as nat) == Some(area_views(areas@)),
        decreases count - i,
    {
        match parse_table(names[i].as_str(), &tables[i]) {
            Ok(area) => {
                let ghost before = area_views(areas@);
                areas.push(area);
                assert(area_views(areas@) =~= before.push(area@));
            },
            Err(e) => {
                proof {
                    lemma_areas_spoiled(labels, markup, (i + 1) as nat, count as nat);
                }
                return Err(e);
            },
        }
        i += 1;
    }
    Ok(areas)
}

/// Extracts the areas from the markup cut out of a page.
pub fn scrape_page(page: &Page) -> (r: Result<Vec<Area>, ScrapeError>)
    ensures
        outcome(r) == page_areas(page@),
{
    match parse_header(page) {
        Ok(names) => assemble(&names, &page.tables),
        Err(_) => Err(ScrapeError::Grammar),
    }
}

/// Extracts the areas from the text of a page: one area for each region,
/// in the order of the page.
pub fn scrape_data(doc: String) -> (r: Result<Vec<Area>, ScrapeError>)
    ensures
        outcome(r) == scraped(doc@),
{
    match Page::load(doc.as_str()) {
        Ok(page) => scrape_page(&page),
        Err(e) => Err(e),
    }
}

/// Once a candidate is no span, no longer list of candidates gives names.
pub proof fn lemma_header_names_spoiled(candidates: Seq<Seq<char>>, upto: int)
    requires
        0 <= upto <= candidates.len(),
        header_names(candidates.take(upto)) is None,
    ensures
        header_names(candidates) is None,
    decreases candidates.len() - upto,
{
    if upto < candidates.len() {
        assert(candidates.take(upto + 1).drop_last() =~= candidates.take(upto));
        lemma_header_names_spoiled(candidates, upto + 1);
    } else {
        assert(candidates.take(upto) =~= candidates);
    }
}

/// Once a row does not match, no longer list of rows gives entries.
pub proof fn lemma_table_entries_spoiled(rows: Seq<Seq<char>>, upto: int)
    requires
        0 <= upto <= rows.len(),
        table_entries(rows.take(upto)) is None,
    ensures
        table_entries(rows) is None,
    decreases rows.len() - upto,
{
    if upto < rows.len() {
        assert(rows.take(upto + 1).drop_last() =~= rows.take(upto));
        lemma_table_entries_spoiled(rows, upto + 1);
    } else {
        assert(rows.take(upto) =~= rows);
    }
}

/// Once a table gives no entries, no greater count of pairs gives areas.
pub proof fn lemma_areas_spoiled(
    names: Seq<Seq<char>>,
    tables: Seq<Seq<Seq<char>>>,
    upto: nat,
    count: nat,
)
    requires
        upto <= count,
        areas_upto(names, tables, upto) is None,
    ensures
        areas_upto(names, tables, count) is None,
    decreases count - upto,
{
    if upto < count {
        lemma_areas_spoiled(names, tables, upto, (count - 1) as nat);
    }
}

/// A row that holds `SAC` is left out: the rows give the same entries
/// with it as without it, wherever it stands among them and whether or not
/// it matches the grammar.
pub proof fn lemma_header_row_is_left_out(
    before: Seq<Seq<char>>,
    header: Seq<char>,
    after: Seq<Seq<char>>,
)
    requires
        is_header_row(header),
    ensures
        table_entries(before + seq![header] + after) == table_entries(before + after),
    decreases after.len(),
{
    let with = before + seq![header] + after;
    let without = before + after;
    if after.len() == 0 {
        assert(with.drop_last() =~= before);
        assert(without =~= before);
    } else {
        assert(with.drop_last() =~= before + seq![header] + after.drop_last());
        assert(without.drop_last() =~= before + after.drop_last());
        assert(with.last() == without.last());
        lemma_header_row_is_left_out(before, header, after.drop_last());
    }
}

/// Line breaks put into a row do not show in what the row gives: where the
/// parts of a row hold no line break, also not across their borders, the
/// parts joined by line breaks give, once cleaned, what the row gives.
pub proof fn lemma_breaks_do_not_show(parts: Seq<Seq<char>>)
    requires
        !has_substring(flat(parts), line_break()),
    ensures
        row_entry(without_breaks(joined(parts, line_break()))) == row_entry(flat(parts)),
{
    lemma_inserted_breaks_vanish(parts);
}

/// A row whose first cell holds `SAC` is a header row, though the grammar
/// reads it as any other row.
pub proof fn lemma_sac_in_first_cell_heads(shape: RowShape)
    requires
        has_substring(shape.first.text, "SAC"@),
    ensures
        is_header_row(shape.markup()),
{
    let mark = "SAC"@;
    let markup = shape.markup();
    let text = shape.first.text;
    lemma_row_parts_stand(shape, Seq::empty());
    assert(markup + Seq::<char>::empty() =~= markup);
    lemma_text_stands(markup, shape.at_first(), shape.first);
    lemma_substring_of_part(
        markup,
        text,
        shape.at_first() + shape.first.text_start(),
        mark,
    );
}

/// The entries of a table are in the order of their codes, in whatever
/// order the rows stand.
pub proof fn lemma_table_entries_ordered(rows: Seq<Seq<char>>)
    ensures
        table_entries(rows) matches Some(entries) ==> ordered(entries),
    decreases rows.len(),
{
    if rows.len() > 0 {
        lemma_table_entries_ordered(rows.drop_last());
        match table_entries(rows.drop_last()) {
            Some(entries) => {
                if !is_header_row(rows.last()) {
                    match row_entry(without_breaks(rows.last())) {
                        Some((code, label)) => {
                            lemma_put_ordered(entries, code, label);
                        },
                        None => {},
                    }
                }
            },
            None => {},
        }
    }
}

/// The first `count` pairs give `count` areas: each has the name at its
/// place and the entries of the table at its place.
pub proof fn lemma_areas_upto_pairs(
    names: Seq<Seq<char>>,
    tables: Seq<Seq<Seq<char>>>,
    count: nat,
)
    ensures
        areas_upto(names, tables, count) matches Some(areas) ==> {
            &&& areas.len() == count
            &&& forall|i: int|
                0 <= i < count ==> (#[trigger] areas[i]).label == names[i] && table_entries(
                    tables[i],
                ) == Some(areas[i].entries)
        },
    decreases count,
{
    if count > 0 {
        lemma_areas_upto_pairs(names, tables, (count - 1) as nat);
    }
}

/// Names and tables are paired by place: there are as many areas as the
/// shorter of the two has places, each with the name and the entries of the
/// table at its place. Names or tables beyond that are dropped.
pub proof fn lemma_assembled_pairs(names: Seq<Seq<char>>, tables: Seq<Seq<Seq<char>>>)
    ensures
        assembled(names, tables) matches Some(areas) ==> {
            &&& areas.len() == shorter(names.len(), tables.len())
            &&& forall|i: int|
                0 <= i < areas.len() ==> (#[trigger] areas[i]).label == names[i] && table_entries(
                    tables[i],
                ) == Some(areas[i].entries)
        },
{
    lemma_areas_upto_pairs(names, tables, shorter(names.len(), tables.len()));
}

/// What lies beyond the first `count` names and tables has no part in the
/// first `count` areas.
pub proof fn lemma_areas_upto_ignores_rest(
    names: Seq<Seq<char>>,
    tables: Seq<Seq<Seq<char>>>,
    other_names: Seq<Seq<char>>,
    other_tables: Seq<Seq<Seq<char>>>,
    count: nat,
)
    requires
        count <= names.len(),
        count <= tables.len(),
        count <= other_names.len(),
        count <= other_tables.len(),
        names.take(count as int) == other_names.take(count as int),
        tables.take(count as int) == other_tables.take(count as int),
    ensures
        areas_upto(names, tables, count) == areas_upto(other_names, other_tables, count),
    decreases count,
{
    if count > 0 {
        let fewer = (count - 1) as nat;
        assert(names.take(fewer as int) =~= names.take(count as int).take(fewer as int));
        assert(other_names.take(fewer as int) =~= other_names.take(count as int).take(
            fewer as int,
        ));
        assert(tables.take(fewer as int) =~= tables.take(count as int).take(fewer as int));
        assert(other_tables.take(fewer as int) =~= other_tables.take(count as int).take(
            fewer as int,
        ));
        lemma_areas_upto_ignores_rest(names, tables, other_names, other_tables, fewer);
        assert(names[count - 1] == names.take(count as int)[count - 1]);
        assert(other_names[count - 1] == other_names.take(count as int)[count - 1]);
        assert(tables[count - 1] == tables.take(count as int)[count - 1]);
        assert(other_tables[count - 1] == other_tables.take(count as int)[count - 1]);
    }
}

/// Names without a table and tables without a name are dropped: the areas
/// are those of the names and the tables cut to the length of the shorter.
pub proof fn lemma_excess_is_dropped(names: Seq<Seq<char>>, tables: Seq<Seq<Seq<char>>>)
    ensures
        assembled(names, tables) == assembled(
            names.take(shorter(names.len(), tables.len()) as int),
            tables.take(shorter(names.len(), tables.len()) as int),
        ),
{
    let count = shorter(names.len(), tables.len());
    let cut_names = names.take(count as int);
    let cut_tables = tables.take(count as int);
    assert(cut_names.take(count as int) =~= cut_names);
    assert(cut_tables.take(count as int) =~= cut_tables);
    lemma_areas_upto_ignores_rest(names, tables, cut_names, cut_tables, count);
}

/// The extraction is a function of the text of the page: two runs on the
/// same text end alike, with the same areas in the same order where they
/// end well, and with the same error where they do not.
pub proof fn lemma_same_text_same_outcome(
    one: Seq<char>,
    other: Seq<char>,
    first: Result<Seq<AreaView>, ScrapeError>,
    second: Result<Seq<AreaView>, ScrapeError>,
)
    requires
        one == other,
        first == scraped(one),
        second == scraped(other),
    ensures
        first == second,
{
}

} // verus!
