use fetch_sac::area::Area;
use fetch_sac::error::{GrammarError, ScrapeError};
use fetch_sac::page::Page;
use fetch_sac::sac::SAC;
use fetch_sac::sanitize::{replace_all, strip_breaks};
use fetch_sac::scrape::{add_row, assemble, parse_header, parse_table, scrape_data, scrape_page};

fn strings(items: &[&str]) -> Vec<String> {
    items.iter().map(|s| s.to_string()).collect()
}

const HEAD_ROW: &str = "<tr><th>SAC(Hexa)</th><th>Country</th><th>Binary</th></tr>";
const VIETNAM: &str = "<tr><td>94</td><td>Vietnam</td><td>1001 0100</td></tr>";

#[test]
fn strip_breaks_takes_every_line_break_out() {
    assert_eq!("ab", strip_breaks("a<br>b"));
    assert_eq!("", strip_breaks("<br><br>"));
    assert_eq!("abc", strip_breaks("<br>a<br>b<br>c<br>"));
    assert_eq!("no break", strip_breaks("no break"));
    assert_eq!("", strip_breaks(""));
    assert_eq!("<br", strip_breaks("<br"));
    assert_eq!("a<BR>b<br/>c<br >", strip_breaks("a<BR>b<br/>c<br >"));
    assert_eq!("\u{e9}t\u{e9} \u{1f600}", strip_breaks("\u{e9}<br>t\u{e9} <br>\u{1f600}"));
}

#[test]
fn strip_breaks_goes_over_the_text_once() {
    assert_eq!("<br>", strip_breaks("<b<br>r>"));
    assert_eq!("<br", strip_breaks("<br<br>"));
}

#[test]
fn strip_breaks_lets_a_broken_row_be_read() {
    let row = "<tr><td>9<br>4</td><td>Viet<br>nam<br></td><br><td>1001 0100</td></tr>";
    let clean = strip_breaks(row);
    assert_eq!(VIETNAM, clean);
    let mut area = Area::new("x");
    assert_eq!(Ok(()), add_row(&mut area, &clean));
    assert_eq!("Vietnam", area.get("94").unwrap());
}

#[test]
fn parse_header_reads_spans_and_passes_over_decoration() {
    let page = Page {
        headers: strings(&[
            "<span>EU Region</span>",
            "<span class=\"title\">Menu</span>",
            "<div class=\"field--type-advanced-title\">Title</div>",
            "<span><strong>Africa</strong></span>",
        ]),
        tables: vec![],
    };
    assert_eq!(Ok(strings(&["EU Region", "Africa"])), parse_header(&page));
}

#[test]
fn parse_header_of_no_candidates_is_empty() {
    let page = Page { headers: vec![], tables: vec![] };
    assert_eq!(Ok(Vec::<String>::new()), parse_header(&page));
}

#[test]
fn parse_header_fails_on_a_candidate_that_is_no_span() {
    let page = Page {
        headers: strings(&["<span>EU Region</span>", "<span><em>Africa</em></span>"]),
        tables: vec![],
    };
    assert_eq!(Err(GrammarError), parse_header(&page));
    let page = Page { headers: strings(&["<b>EU Region</b>"]), tables: vec![] };
    assert_eq!(Err(GrammarError), parse_header(&page));
}

#[test]
fn add_row_lifts_the_code_and_labels_it() {
    let mut area = Area::new("x");
    assert_eq!(Ok(()), add_row(&mut area, VIETNAM));
    assert_eq!(
        Ok(()),
        add_row(&mut area, "<tr><td>A0...C3</td><td><strong>Many</strong></td></tr>")
    );
    assert_eq!(
        vec![
            (&SAC::Hex("94".to_owned()), &"Vietnam".to_owned()),
            (&SAC::Range("A0...C3".to_owned()), &"Many".to_owned()),
        ],
        area.iter()
    );
}

#[test]
fn add_row_leaves_the_area_alone_on_failure() {
    let mut area = Area::new("x");
    area.add("01", "one");
    assert_eq!(Err(GrammarError), add_row(&mut area, "<tr><td>02</td></tr>"));
    assert_eq!(vec![(&SAC::Hex("01".to_owned()), &"one".to_owned())], area.iter());
    assert_eq!("x", area.name());
}

#[test]
fn parse_table_leaves_out_rows_that_hold_sac() {
    let rows = strings(&[
        HEAD_ROW,
        VIETNAM,
        "<tr><td>SAC</td><td>parses, and is left out</td></tr>",
        "<tr><td>95</td><td>ISAC</td></tr>",
        "<tr><td>96</td><td>sac in small letters stays</td></tr>",
    ]);
    let area = parse_table("Asia", &rows).unwrap();
    assert_eq!("Asia", area.name());
    assert_eq!(
        vec![
            (&SAC::Hex("94".to_owned()), &"Vietnam".to_owned()),
            (&SAC::Hex("96".to_owned()), &"sac in small letters stays".to_owned()),
        ],
        area.iter()
    );
}

#[test]
fn parse_table_cleans_rows_before_reading() {
    let rows = strings(&["<tr><td>0<br>1</td>\n<td>Here<br></td></tr>\n"]);
    let area = parse_table("x", &rows).unwrap();
    assert_eq!(vec![(&SAC::Hex("01".to_owned()), &"Here".to_owned())], area.iter());
}

#[test]
fn parse_table_fails_on_a_row_that_does_not_match() {
    let rows = strings(&[VIETNAM, "<tr><td>only one cell</td></tr>", VIETNAM]);
    assert_eq!(Some(ScrapeError::Grammar), parse_table("x", &rows).err());
    let rows = strings(&["  <tr><td>1</td><td>2</td></tr>"]);
    assert_eq!(Some(ScrapeError::Grammar), parse_table("x", &rows).err());
}

#[test]
fn parse_table_of_no_rows_is_an_empty_area() {
    let area = parse_table("x", &vec![]).unwrap();
    assert!(area.is_empty());
    assert_eq!("x", area.name());
}

#[test]
fn assemble_pairs_names_and_tables_by_place() {
    let names = strings(&["One", "Two"]);
    let tables = vec![
        strings(&[HEAD_ROW, "<tr><td>01</td><td>a</td></tr>"]),
        strings(&["<tr><td>02</td><td>b</td></tr>", "<tr><td>01</td><td>c</td></tr>"]),
    ];
    let areas = assemble(&names, &tables).unwrap();
    assert_eq!(2, areas.len());
    assert_eq!("One\n  01 = a", areas[0].to_string());
    assert_eq!("Two\n  01 = c\n  02 = b", areas[1].to_string());
}

#[test]
fn assemble_drops_names_without_a_table() {
    let names = strings(&["One", "Two", "Three"]);
    let tables = vec![
        strings(&["<tr><td>01</td><td>a</td></tr>"]),
        strings(&["<tr><td>02</td><td>b</td></tr>"]),
    ];
    let areas = assemble(&names, &tables).unwrap();
    assert_eq!(2, areas.len());
    assert_eq!("One", areas[0].name());
    assert_eq!("Two", areas[1].name());
    assert_eq!("a", areas[0].get("01").unwrap());
    assert_eq!("b", areas[1].get("02").unwrap());
}

#[test]
fn assemble_drops_tables_without_a_name() {
    let names = strings(&["One"]);
    let tables = vec![
        strings(&["<tr><td>01</td><td>a</td></tr>"]),
        strings(&["this table is never read"]),
    ];
    let areas = assemble(&names, &tables).unwrap();
    assert_eq!(1, areas.len());
    assert_eq!("One\n  01 = a", areas[0].to_string());
    assert_eq!(0, assemble(&vec![], &tables).unwrap().len());
    assert_eq!(0, assemble(&names, &vec![]).unwrap().len());
}

#[test]
fn assemble_fails_where_a_paired_table_does() {
    let names = strings(&["One", "Two"]);
    let tables = vec![strings(&[VIETNAM]), strings(&["<tr><td>02</td></tr>"])];
    assert_eq!(Some(ScrapeError::Grammar), assemble(&names, &tables).err());
}

#[test]
fn scrape_page_reads_headers_then_tables() {
    let page = Page {
        headers: strings(&["<span class=\"x\">no</span>", "<span>EU Region</span>"]),
        tables: vec![strings(&[HEAD_ROW, VIETNAM])],
    };
    let areas = scrape_page(&page).unwrap();
    assert_eq!(1, areas.len());
    assert_eq!("EU Region\n  94 = Vietnam", areas[0].to_string());
    let page = Page { headers: strings(&["<p>EU Region</p>"]), tables: vec![] };
    assert_eq!(Some(ScrapeError::Grammar), scrape_page(&page).err());
}

fn document() -> String {
    format!(
        "<!DOCTYPE html><html><head><title>Codes</title></head><body>\
         <div class=\"field--type-advanced-title\">Codes</div>\
         <ul><li><a href=\"#eu\"><span>EU Region</span></a></li></ul>\
         <table><tbody>{HEAD_ROW}\n{VIETNAM}\n</tbody></table>\
         </body></html>"
    )
}

#[test]
fn page_load_cuts_headers_and_rows_out_of_the_document() {
    let page = Page::load(&document()).unwrap();
    assert_eq!(
        strings(&[
            "<div class=\"field--type-advanced-title\">Codes</div>",
            "<span>EU Region</span>",
        ]),
        page.headers
    );
    assert_eq!(vec![strings(&[HEAD_ROW, VIETNAM])], page.tables);
}

#[test]
fn page_load_of_a_page_without_tables() {
    let page = Page::load("nothing here").unwrap();
    assert!(page.headers.is_empty());
    assert!(page.tables.is_empty());
}

#[test]
fn scrape_data_end_to_end() {
    let areas = scrape_data(document()).unwrap();
    assert_eq!(1, areas.len());
    assert_eq!("EU Region", areas[0].name());
    assert_eq!(vec![(&SAC::Hex("94".to_owned()), &"Vietnam".to_owned())], areas[0].iter());
}

#[test]
fn scrape_data_twice_gives_the_same() {
    let text = format!(
        "<a><span>One</span></a><a><span>Two</span></a><a><span>Three</span></a>\
         <table>{HEAD_ROW}<tr><td>B0</td><td>b</td></tr><tr><td>A0...A3</td><td>r</td></tr>\
         <tr><td>0A</td><td>a<br></td></tr></table>\
         <table><tr><td>FF</td><td>f</td></tr></table>"
    );
    let first = scrape_data(text.clone()).unwrap();
    let second = scrape_data(text).unwrap();
    assert_eq!(2, first.len());
    assert_eq!(first.len(), second.len());
    for (a, b) in first.iter().zip(second.iter()) {
        assert_eq!(a.name(), b.name());
        assert_eq!(a.iter(), b.iter());
    }
    assert_eq!("One\n  0A = a\n  B0 = b\n  A0...A3 = r", first[0].to_string());
    assert_eq!("Two\n  FF = f", first[1].to_string());
}

#[test]
fn scrape_data_of_an_empty_document_is_empty() {
    assert_eq!(0, scrape_data(String::new()).unwrap().len());
}

#[test]
fn scrape_data_fails_on_a_row_that_does_not_match() {
    let text = "<a><span>One</span></a><table><tr><td>01</td></tr></table>".to_owned();
    assert_eq!(Some(ScrapeError::Grammar), scrape_data(text).err());
}

#[test]
fn page_load_with_other_selectors() {
    let text = "<div><p>one</p><ul><li>a</li><li>b</li></ul><ul></ul><p>two</p></div>";
    let page = Page::load_with(text, "p", "ul", "li").unwrap();
    assert_eq!(strings(&["<p>one</p>", "<p>two</p>"]), page.headers);
    assert_eq!(vec![strings(&["<li>a</li>", "<li>b</li>"]), vec![]], page.tables);
}

#[test]
fn page_load_with_refuses_what_is_no_selector() {
    assert_eq!(Some(ScrapeError::Selector), Page::load_with("<p></p>", "p", "ul", "li >").err());
    assert_eq!(Some(ScrapeError::Selector), Page::load_with("<p></p>", "p", "", "li").err());
    assert_eq!(Some(ScrapeError::Selector), Page::load_with("<p></p>", "[", "ul", "li").err());
}

#[test]
fn replace_all_agrees_with_the_replacing_of_strings() {
    let texts = ["", "a", "aaa", "aaaa", "abab", "<br><br>", "a<br>b", "x\u{e9}x\u{e9}", "banana"];
    let patterns = ["a", "aa", "ab", "<br>", "\u{e9}", "ana", "banana!"];
    let fillers = ["", "-", "aa", "<br>"];
    for text in texts {
        for pattern in patterns {
            for filler in fillers {
                assert_eq!(text.replace(pattern, filler), replace_all(text, pattern, filler));
            }
        }
    }
}

#[test]
fn replace_all_leaves_the_text_alone_for_an_empty_pattern() {
    assert_eq!("abc", replace_all("abc", "", "-"));
    assert_eq!("", replace_all("", "", "-"));
}

#[test]
fn scrape_data_reads_rows_with_line_breaks() {
    let text = "<a><span>EU Region</span></a><table>\
                <tr><td>94</td><td>Viet<br>nam<br></td><td>1001 0100</td></tr></table>";
    let areas = scrape_data(text.to_owned()).unwrap();
    assert_eq!(1, areas.len());
    assert_eq!(1, areas[0].len());
    assert_eq!(Some(&"Vietnam".to_owned()), areas[0].get("94"));
}

#[test]
fn scrape_data_leaves_out_a_row_that_holds_sac() {
    let text = "<a><span>EU Region</span></a><table>\
                <tr><td>SAC</td><td>Country</td></tr></table>";
    let areas = scrape_data(text.to_owned()).unwrap();
    assert_eq!(1, areas.len());
    assert_eq!("EU Region", areas[0].name());
    assert!(areas[0].is_empty());
    assert!(!areas[0].contains_key("SAC"));
}

#[test]
fn scrape_data_pairs_names_and_tables_up_to_the_shorter() {
    let text = "<a><span>Zulu</span></a><a><span>Alpha</span></a><a><span>Mike</span></a>\
                <table><tr><td>01</td><td>x</td></tr></table>\
                <table><tr><td>02</td><td>y</td></tr></table>";
    let areas = scrape_data(text.to_owned()).unwrap();
    assert_eq!(2, areas.len());
    assert_eq!(("Zulu", "Alpha"), (areas[0].name().as_str(), areas[1].name().as_str()));
    assert_eq!(Some(&"x".to_owned()), areas[0].get("01"));
    assert_eq!(Some(&"y".to_owned()), areas[1].get("02"));
    let text = "<a><span>North</span></a>\
                <table><tr><td>01</td><td>x</td></tr></table>\
                <table><tr><td>02</td><td>y</td></tr></table>";
    let areas = scrape_data(text.to_owned()).unwrap();
    assert_eq!(1, areas.len());
    assert_eq!("North", areas[0].name());
    assert_eq!(Some(&"x".to_owned()), areas[0].get("01"));
    assert!(!areas[0].contains_key("02"));
}

#[test]
fn scrape_data_orders_entries_by_code() {
    let text = "<a><span>R</span></a><table>\
                <tr><td>B0</td><td>b</td></tr><tr><td>A4</td><td>a</td></tr></table>";
    let areas = scrape_data(text.to_owned()).unwrap();
    assert_eq!(vec![&SAC::Hex("A4".to_owned()), &SAC::Hex("B0".to_owned())], areas[0].keys());
    assert_eq!(vec!["a", "b"], areas[0].values());
}

#[test]
fn max_page_keeps_every_text_below_the_limit_of_the_parser() {
    assert_eq!(0x0AAA_AAAA, fetch_sac::page::MAX_PAGE);
    assert!((fetch_sac::page::MAX_PAGE as u64) * 4 * 3 <= 1u64 << 31);
}
