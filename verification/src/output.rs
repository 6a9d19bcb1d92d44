//! The areas written out: as plain text, and as the rows and the text of a
//! table of comma-separated values.

use std::collections::VecDeque;
use vstd::prelude::*;
use crate::area::{area_text, Area, AreaView};
use crate::error::SerializationError;
use crate::scrape::area_views;
use crate::text::{joined, lemma_joined_push};

verus! {

/// The comma that parts the fields of a row, as a byte.
pub const COMMA: u8 = 44;

/// The three fields of a row: region, code and label.
pub type Record = (String, String, String);

/// What a `Record` stands for.
pub type Fields = (Seq<char>, Seq<char>, Seq<char>);

/// What rows stand for.
pub open spec fn record_views(rows: Seq<Record>) -> Seq<Fields> {
    Seq::new(rows.len(), |i: int| (rows[i].0@, rows[i].1@, rows[i].2@))
}

/// The texts of the areas, in their order.
pub open spec fn area_texts(areas: Seq<AreaView>) -> Seq<Seq<char>> {
    Seq::new(areas.len(), |i: int| area_text(areas[i]))
}

/// The areas as plain text: the text of each area, with an empty line
/// between one area and the next.
pub open spec fn plain_text(areas: Seq<AreaView>) -> Seq<char> {
    joined(area_texts(areas), "\n\n"@)
}

/// The row that names the fields.
pub open spec fn heading() -> Fields {
    ("Region"@, "SAC"@, "Label"@)
}

/// The rows of one area: for each code the name of the area, the code as
/// text and the label, in the order of the codes.
pub open spec fn area_rows(area: AreaView) -> Seq<Fields> {
    Seq::new(
        area.entries.len(),
        |i: int| (area.label, area.entries[i].0.text(), area.entries[i].1),
    )
}

/// The rows of the areas, area after area.
pub open spec fn all_rows(areas: Seq<AreaView>) -> Seq<Fields>
    decreases areas.len(),
{
    if areas.len() == 0 {
        Seq::empty()
    } else {
        all_rows(areas.drop_last()) + area_rows(areas.last())
    }
}

/// The heading, and under it the rows of the areas.
pub open spec fn prepared(areas: Seq<AreaView>) -> Seq<Fields> {
    seq![heading()] + all_rows(areas)
}

/// A field with each quote in it written twice.
pub open spec fn doubled(field: Seq<char>) -> Seq<char>
    decreases field.len(),
{
    if field.len() == 0 {
        Seq::empty()
    } else if field[0] == '"' {
        seq!['"', '"'] + doubled(field.skip(1))
    } else {
        seq![field[0]] + doubled(field.skip(1))
    }
}

/// A field between quotes.
pub open spec fn quoted(field: Seq<char>) -> Seq<char> {
    seq!['"'] + doubled(field) + seq!['"']
}

/// A row as a line of text: its fields between quotes, `delimiter` between
/// the fields, and a line feed at the end.
pub open spec fn row_text(row: Fields, delimiter: char) -> Seq<char> {
    quoted(row.0) + seq![delimiter] + quoted(row.1) + seq![delimiter] + quoted(row.2) + seq![
        '\n',
    ]
}

/// Rows as text, line after line.
pub open spec fn table_text(rows: Seq<Fields>, delimiter: char) -> Seq<char>
    decreases rows.len(),
{
    if rows.len() == 0 {
        Seq::empty()
    } else {
        table_text(rows.drop_last(), delimiter) + row_text(rows.last(), delimiter)
    }
}

/// A byte that may part the fields of a row: one of ASCII that is neither a
/// quote nor the end of a line.
pub open spec fn is_delimiter(byte: u8) -> bool {
    byte < 128 && byte != 34 && byte != 10 && byte != 13
}

/// Writes the areas as plain text.
pub fn to_text(areas: &[Area]) -> (r: String)
    ensures
        r@ == plain_text(area_views(areas@)),
{
    let ghost texts = area_texts(area_views(areas@));
    let mut text = String::new();
    let mut i: usize = 0;
    while i < areas.len()
        invariant
            i <= areas.len(),
            texts == area_texts(area_views(areas@)),
            text@ == joined(texts.take(i as int), "\n\n"@),
        decreases areas.len() - i,
    {
        if i > 0 {
            text.append("\n\n");
        }
        let area = areas[i].to_string();
        text.append(area.as_str());
        proof {
            assert(texts.take(i + 1) =~= texts.take(i as int).push(area@));
            lemma_joined_push(texts.take(i as int), area@, "\n\n"@);
            assert(Seq::<char>::empty() + area@ =~= area@);
        }
        i += 1;
    }
    assert(texts.take(i as int) =~= texts);
    text
}

/// Lays the areas out as rows: the heading first, then one row for each
/// code of each area.
pub fn prepare_data(areas: &[Area]) -> (r: VecDeque<Record>)
    ensures
        record_views(r@) == prepared(area_views(areas@)),
{
    let ghost views = area_views(areas@);
    let mut flat: VecDeque<Record> = VecDeque::new();
    let mut i: usize = 0;
    while i < areas.len()
        invariant
            i <= areas.len(),
            views == area_views(areas@),
            record_views(flat@) == all_rows(views.take(i as int)),
        decreases areas.len() - i,
    {
        let area = &areas[i];
        let name = area.name();
        let entries = area.iter();
        let ghost before = record_views(flat@);
        let mut j: usize = 0;
        while j < entries.len()
            invariant
                j <= entries.len(),
                name@ == area@.label,
                crate::area::entry_views(entries@) == area@.entries,
                record_views(flat@) == before + area_rows(area@).take(j as int),
            decreases entries.len() - j,
        {
            let (code, label) = entries[j];
            let ghost so_far = record_views(flat@);
            flat.push_back((name.clone(), code.to_string(), label.clone()));
            proof {
                assert(crate::area::entry_views(entries@)[j as int] == (code@, label@));
                assert(record_views(flat@) =~= so_far.push(area_rows(area@)[j as int]));
                assert(before + area_rows(area@).take(j + 1) =~= (before + area_rows(area@).take(
                    j as int,
                )).push(area_rows(area@)[j as int]));
            }
            j += 1;
        }
        proof {
            assert(area_rows(area@).take(j as int) =~= area_rows(area@));
            assert(views.take(i + 1).drop_last() =~= views.take(i as int));
            assert(views.take(i + 1).last() == area@);
        }
        i += 1;
    }
    proof {
        assert(views.take(i as int) =~= views);
        reveal_strlit("Region");
        reveal_strlit("SAC");
        reveal_strlit("Label");
    }
    let ghost rows = record_views(flat@);
    flat.push_front(
        (String::from_str("Region"), String::from_str("SAC"), String::from_str("Label")),
    );
    assert(record_views(flat@) =~= seq![heading()] + rows);
    flat
}

/// `csv::Writer::serialize` on each row in turn, on a writer that
/// `csv::WriterBuilder` makes over an empty buffer with the given delimiter
/// and `csv::QuoteStyle::Always`; then `csv::Writer::into_inner` and
/// `String::from_utf8`. Every field is written between quotes, a quote
/// inside a field is written twice, the delimiter stands between the fields
/// of a row, and a line feed ends each row. Rows of three texts each, written
/// into a buffer in memory, give the writer and the conversion nothing to
/// fail on, so that there always is a text.
#[verifier::external_body]
fn write_quoted(rows: &VecDeque<Record>, delimiter: u8) -> (r: Option<String>)
    requires
        is_delimiter(delimiter),
    ensures
        r is Some,
        r matches Some(text) ==> text@ == table_text(record_views(rows@), delimiter as char),
{
    let mut builder = csv::WriterBuilder::new();
    builder.delimiter(delimiter).quote_style(csv::QuoteStyle::Always);
    let mut writer = builder.from_writer(Vec::new());
    for row in rows.iter() {
        writer.serialize(row).ok()?;
    }
    String::from_utf8(writer.into_inner().ok()?).ok()
}

/// Writes rows as comma-separated values, every field between quotes.
pub fn to_csv(data: VecDeque<Record>) -> (r: Result<String, SerializationError>)
    ensures
        r matches Ok(text) && text@ == table_text(record_views(data@), ','),
{
    written_or_error(write_quoted(&data, COMMA))
}

/// The result of the writing: the text where the writer gave one, an error
/// where it gave none.
pub fn written_or_error(text: Option<String>) -> (r: Result<String, SerializationError>)
    ensures
        r == match text {
            Some(text) => Ok::<String, SerializationError>(text),
            None => Err::<String, SerializationError>(SerializationError),
        },
{
    match text {
        Some(text) => Ok(text),
        None => Err(SerializationError),
    }
}

} // verus!
