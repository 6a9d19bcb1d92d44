use fetch_sac::error::GrammarError;
use fetch_sac::parse::{
    parse_content, parse_span, parse_strong, parse_td, parse_three, parse_tr, parse_two,
};

#[test]
fn test_parse_td_plain() {
    let (_, r) = parse_td("<td>foo</td>").unwrap();
    assert_eq!("foo", r)
}

#[test]
fn test_parse_td_strong() {
    let (_, r) = parse_td("<td><strong>foo</strong></td>").unwrap();
    assert_eq!("foo", r)
}

#[test]
fn test_parse_td_strong_with_space() {
    let (_, r) = parse_td("<td><strong>Binary Representation</strong></td>").unwrap();
    assert_eq!("Binary Representation", r)
}

#[test]
fn test_parse_span_plain() {
    let (_, r) = parse_span("<span>foo</span>").unwrap();
    assert_eq!("foo", r)
}

#[test]
fn test_parse_span_region() {
    let (_, r) = parse_span("<span>EU Region</span>").unwrap();
    assert_eq!("EU Region", r)
}

#[test]
fn test_parse_span_strong() {
    let (_, r) = parse_span("<span><strong>foo</strong></span>").unwrap();
    assert_eq!("foo", r)
}

#[test]
fn test_parse_two() {
    let input = "<td>foo</td><td>bar</td>";

    let (_, (a, b)) = parse_two(input).unwrap();
    assert_eq!("foo", a);
    assert_eq!("bar", b);
}

#[test]
fn test_parse_three() {
    let input = "<td>foo</td><td>bar</td><td>non</TD>";

    let (_, (a, b)) = parse_three(input).unwrap();
    assert_eq!("foo", a);
    assert_eq!("bar", b);
}

#[test]
fn test_parse_tr_0() {
    let input = "<tr><td>foo</td><td>bar</td><td>non</td></tr>";

    let r = parse_tr(input);
    assert!(r.is_ok());

    let (_, (a, b)) = r.unwrap();
    assert_eq!("foo", a);
    assert_eq!("bar", b);
}

#[test]
fn test_parse_tr_1() {
    let input = "<tr>\n\
        <td>foo</td><td>bar</td><td>non</td>\n\
        </tr>";

    let r = parse_tr(input);
    assert!(r.is_ok());

    let (_, (a, b)) = r.unwrap();
    assert_eq!("foo", a);
    assert_eq!("bar", b);
}

#[test]
fn test_parse_tr_2() {
    let input = "<tr>\n\
        <td>foo</td><td>bar</td>\n\
        </tr>";

    let r = parse_tr(input);
    assert!(r.is_ok());

    let (_, (a, b)) = r.unwrap();
    assert_eq!("foo", a);
    assert_eq!("bar", b);
}

#[test]
fn test_parse_tr_3() {
    let input = "<tr>\n\
        <td>foo</td>\n\
        <td>bar</td>\n\
        <td>non</td>\n\
        </tr>";

    let r = parse_tr(input);
    assert!(r.is_ok());

    let (_, (a, b)) = r.unwrap();
    assert_eq!("foo", a);
    assert_eq!("bar", b);
}

#[test]
fn test_parse_tr_4() {
    let input = r##"<tr><td>94</td><td>Vietnam</td><td>1001 0100</td></tr>"##;

    let r = parse_tr(input);
    assert!(r.is_ok());

    let (_, (a, b)) = r.unwrap();
    assert_eq!("94", a);
    assert_eq!("Vietnam", b);
}

#[test]
fn test_parse_tr_5() {
    let input = r##"<tr><td>94</td>
        <td>Vietnam</td>
        <td>1001 0100</td>
        </tr>"##;

    let r = parse_tr(input);
    assert!(r.is_ok());

    let (_, (a, b)) = r.unwrap();
    assert_eq!("94", a);
    assert_eq!("Vietnam", b);
}

#[test]
fn test_parse_tr_6() {
    let input = r##"<tr><th>SAC(Hexa)</th>
    <th>Country/Geographical Area</th>
    <th>Binary Representation</th>
    </tr>
    "##;

    let r = parse_tr(input);
    assert!(r.is_ok());

    let (_, (a, b)) = r.unwrap();
    assert_eq!("SAC(Hexa)", a);
    assert_eq!("Country/Geographical Area", b);
}

#[test]
fn parse_tr_leaves_what_follows_the_row() {
    let (rest, (a, b)) = parse_tr("<tr><td>1</td><td>2</td></tr> \t\r\n<tr>").unwrap();
    assert_eq!("<tr>", rest);
    assert_eq!("1", a);
    assert_eq!("2", b);
    let (rest, _) = parse_tr("<tr><td>1</td><td>2</td><td>3</td></tr>").unwrap();
    assert_eq!("", rest);
}

#[test]
fn parse_tr_takes_tags_in_any_case() {
    let (_, (a, b)) = parse_tr("<TR><Td>Foo</tD><TH>Bar</th></Tr>").unwrap();
    assert_eq!("Foo", a);
    assert_eq!("Bar", b);
}

#[test]
fn parse_tr_unwraps_strong_in_either_cell() {
    let (_, (a, b)) = parse_tr("<tr><td><strong>foo</strong></td><td>bar</td></tr>").unwrap();
    assert_eq!(("foo", "bar"), (a, b));
    let (_, (a, b)) = parse_tr("<tr><td>foo</td><td><STRONG>bar</STRONG></td></tr>").unwrap();
    assert_eq!(("foo", "bar"), (a, b));
}

#[test]
fn parse_tr_keeps_text_that_is_not_ascii() {
    let (rest, (a, b)) =
        parse_tr("<tr><td>\u{e9}t\u{e9}</td><td>C\u{f4}te d\u{2019}Ivoire \u{1f600}</td></tr>\u{e9}")
            .unwrap();
    assert_eq!("\u{e9}t\u{e9}", a);
    assert_eq!("C\u{f4}te d\u{2019}Ivoire \u{1f600}", b);
    assert_eq!("\u{e9}", rest);
}

#[test]
fn parse_tr_takes_empty_cells() {
    let (_, (a, b)) = parse_tr("<tr><td></td><td></td></tr>").unwrap();
    assert_eq!(("", ""), (a, b));
}

#[test]
fn parse_tr_refuses_what_does_not_start_with_the_row_tag() {
    assert_eq!(Err(GrammarError), parse_tr(" <tr><td>1</td><td>2</td></tr>"));
    assert_eq!(Err(GrammarError), parse_tr("<td>1</td><td>2</td>"));
    assert_eq!(Err(GrammarError), parse_tr(""));
}

#[test]
fn parse_tr_refuses_fewer_than_two_or_more_than_three_cells() {
    assert_eq!(Err(GrammarError), parse_tr("<tr></tr>"));
    assert_eq!(Err(GrammarError), parse_tr("<tr><td>1</td></tr>"));
    assert_eq!(
        Err(GrammarError),
        parse_tr("<tr><td>1</td><td>2</td><td>3</td><td>4</td></tr>")
    );
}

#[test]
fn parse_tr_refuses_cells_that_are_not_closed_as_opened() {
    assert_eq!(Err(GrammarError), parse_tr("<tr><td>1</th><td>2</td></tr>"));
    assert_eq!(Err(GrammarError), parse_tr("<tr><td>1</td><td>2</td>"));
    assert_eq!(Err(GrammarError), parse_tr("<tr><td>1</td><td>2"));
    assert_eq!(Err(GrammarError), parse_tr("<tr><td>1<br>x</td><td>2</td></tr>"));
    assert_eq!(Err(GrammarError), parse_tr("<tr><td>1</td>x<td>2</td></tr>"));
}

#[test]
fn parse_td_goes_one_level_into_strong_and_no_further() {
    assert_eq!(
        Err(GrammarError),
        parse_td("<td><strong><strong>foo</strong></strong></td>")
    );
    assert_eq!(Err(GrammarError), parse_td("<td><strong>foo</td>"));
    assert_eq!(Err(GrammarError), parse_td("<td><em>foo</em></td>"));
    assert_eq!(Err(GrammarError), parse_td("<td><strong>a</strong>b</td>"));
}

#[test]
fn parse_td_drops_the_space_after_the_cell_only() {
    assert_eq!(Ok(("x", " foo ")), parse_td("<td> foo </td> \n\t\r x"));
    assert_eq!(Ok(("\u{a0}x", "foo")), parse_td("<th>foo</th>\u{a0}x"));
}

#[test]
fn parse_strong_reads_bold_text() {
    assert_eq!(Ok((" rest", "foo")), parse_strong("<strong>foo</strong> rest"));
    assert_eq!(Ok(("", "")), parse_strong("<Strong></stronG>"));
    assert_eq!(Err(GrammarError), parse_strong("foo"));
    assert_eq!(Err(GrammarError), parse_strong("<strong>foo"));
}

#[test]
fn parse_content_prefers_bold_text() {
    assert_eq!(Ok(("</td>", "foo")), parse_content("<strong>foo</strong></td>"));
    assert_eq!(Ok(("</td>", "foo")), parse_content("foo</td>"));
    assert_eq!(Ok(("<em>", "")), parse_content("<em>"));
    assert_eq!(Err(GrammarError), parse_content("foo"));
    assert_eq!(Err(GrammarError), parse_content(""));
}

#[test]
fn parse_two_stops_after_the_second_cell() {
    assert_eq!(
        Ok(("<td>non</td>", ("foo", "bar"))),
        parse_two("<td>foo</td> <td>bar</td> <td>non</td>")
    );
    assert_eq!(Err(GrammarError), parse_two("<td>foo</td>"));
}

#[test]
fn parse_three_wants_a_third_cell() {
    assert_eq!(
        Ok(("x", ("foo", "bar"))),
        parse_three("<td>foo</td><td>bar</td><td>non</td>\nx")
    );
    assert_eq!(Err(GrammarError), parse_three("<td>foo</td><td>bar</td>"));
}

#[test]
fn parse_span_refuses_other_markup() {
    assert_eq!(Err(GrammarError), parse_span("<span class=\"x\">foo</span>"));
    assert_eq!(Err(GrammarError), parse_span("<div>foo</div>"));
    assert_eq!(Ok(("tail", "foo")), parse_span("<SPAN>foo</SPAN>tail"));
}
