//! What is read of a page: the markup of the elements that may name a
//! region, and the markup of the rows of each table.

use scraper::{ElementRef, Html, Selector};
use vstd::prelude::*;
use crate::error::ScrapeError;
use crate::text::text_views;

verus! {

/// The elements that may hold the name of a region: a span right inside a
/// link, or an element marked as a title.
pub const HEADER_SELECTOR: &'static str = "a > span, [class=field--type-advanced-title]";

/// The tables of a page, one for each region.
pub const TABLE_SELECTOR: &'static str = "table";

/// The rows of a table.
pub const ROW_SELECTOR: &'static str = "tr";

/// The greatest number of characters of a page that is cut. The selector
/// engine cannot make a text grow beyond 2^31 bytes. A character takes at
/// most four bytes, and what the parser puts in the place of a byte it does
/// not take, at most three: twelve bytes for each character stay below that.
pub const MAX_PAGE: usize = 0x0AAA_AAAA;

/// What a `Page` stands for.
pub struct PageView {
    pub headers: Seq<Seq<char>>,
    pub tables: Seq<Seq<Seq<char>>>,
}

/// The markup that the extraction reads, cut out of a page: the elements
/// that may name a region, and for each table its rows, all in the order of
/// the page.
#[derive(Debug)]
pub struct Page {
    pub headers: Vec<String>,
    pub tables: Vec<Vec<String>>,
}

/// What the tables of a page stand for: the texts of their rows.
pub open spec fn table_views(tables: Seq<Vec<String>>) -> Seq<Seq<Seq<char>>> {
    Seq::new(tables.len(), |i: int| text_views(tables[i]@))
}

impl View for Page {
    type V = PageView;

    open spec fn view(&self) -> PageView {
        PageView { headers: text_views(self.headers@), tables: table_views(self.tables@) }
    }
}

/// The markup that the selectors `headers`, `tables` and `rows` cut out of
/// `document`; `None` where one of them is no selector.
pub uninterp spec fn selected(
    document: Seq<char>,
    headers: Seq<char>,
    tables: Seq<char>,
    rows: Seq<char>,
) -> Option<PageView>;

/// `scraper::Html::parse_document` on `document`, then `scraper::Html::select`
/// with the selectors that `scraper::Selector::parse` makes of `headers` and
/// of `tables`, and for each table `scraper::ElementRef::select` with the
/// one it makes of `rows`; of each element found, `scraper::ElementRef::html`.
/// The result depends on the four texts alone. `None` where a selector is
/// refused. The document must have no more than `MAX_PAGE` characters: the
/// parser joins the pieces of a text in one buffer, and comes to a halt
/// where that buffer would have to grow beyond 2^31 bytes.
#[verifier::external_body]
fn select(document: &str, headers: &str, tables: &str, rows: &str) -> (r: Option<Page>)
    requires
        document@.len() <= MAX_PAGE,
    ensures
        match r {
            Some(page) => selected(document@, headers@, tables@, rows@) == Some(page@),
            None => selected(document@, headers@, tables@, rows@) is None,
        },
{
    let html = Html::parse_document(document);
    let headers = Selector::parse(headers).ok()?;
    let tables = Selector::parse(tables).ok()?;
    let rows = Selector::parse(rows).ok()?;
    let in_table = |table: ElementRef| table.select(&rows).map(|row| row.html()).collect();
    Some(
        Page {
            headers: html.select(&headers).map(|header| header.html()).collect(),
            tables: html.select(&tables).map(in_table).collect(),
        },
    )
}

/// What the loading of a page gives: the markup that the selectors cut out
/// of the document, or the reason why there is none. A document that is too
/// long is not looked at any further.
pub open spec fn loaded(
    document: Seq<char>,
    headers: Seq<char>,
    tables: Seq<char>,
    rows: Seq<char>,
) -> Result<PageView, ScrapeError> {
    if document.len() > MAX_PAGE {
        Err(ScrapeError::Size)
    } else {
        match selected(document, headers, tables, rows) {
            Some(page) => Ok(page),
            None => Err(ScrapeError::Selector),
        }
    }
}

/// What the page selectors cut out of `document`.
pub open spec fn page_of(document: Seq<char>) -> Result<PageView, ScrapeError> {
    loaded(document, HEADER_SELECTOR@, TABLE_SELECTOR@, ROW_SELECTOR@)
}

/// What the result of a loading stands for.
pub open spec fn page_outcome(r: Result<Page, ScrapeError>) -> Result<PageView, ScrapeError> {
    match r {
        Ok(page) => Ok(page@),
        Err(e) => Err(e),
    }
}

impl Page {
    /// Cuts the markup that the extraction reads out of the text of a page.
    /// Fails where the page is too long, and where the selector engine
    /// refuses a selector.
    pub fn load(document: &str) -> (r: Result<Page, ScrapeError>)
        ensures
            page_outcome(r) == page_of(document@),
    {
        Page::load_with(document, HEADER_SELECTOR, TABLE_SELECTOR, ROW_SELECTOR)
    }

    /// Cuts out of the text of a page what the given selectors find: the
    /// header candidates, the tables, and the rows inside each table. Fails
    /// where the page has more than `MAX_PAGE` characters, and where one of
    /// the three is no selector.
    pub fn load_with(document: &str, headers: &str, tables: &str, rows: &str) -> (r: Result<
        Page,
        ScrapeError,
    >)
        ensures
            page_outcome(r) == loaded(document@, headers@, tables@, rows@),
    {
        if document.unicode_len() > MAX_PAGE {
            return Err(ScrapeError::Size);
        }
        match select(document, headers, tables, rows) {
            Some(page) => Ok(page),
            None => Err(ScrapeError::Selector),
        }
    }
}

} // verus!
