use std::collections::VecDeque;

use fetch_sac::area::Area;
use fetch_sac::error::SerializationError;
use fetch_sac::output::{prepare_data, to_csv, to_text, written_or_error};

fn record(a: &str, b: &str, c: &str) -> (String, String, String) {
    (a.to_owned(), b.to_owned(), c.to_owned())
}

fn areas() -> Vec<Area> {
    let mut eu = Area::new("EU Region");
    eu.add("94", "Vietnam").add("A0...C3", "Many").add("10", "Else\"where\"");
    let empty = Area::new("Nobody");
    let mut other = Area::new("Other, far");
    other.add("FF", "Last");
    vec![eu, empty, other]
}

#[test]
fn prepare_data_puts_the_heading_first() {
    let rows = prepare_data(&[]);
    assert_eq!(VecDeque::from(vec![record("Region", "SAC", "Label")]), rows);
}

#[test]
fn prepare_data_has_a_row_for_each_code() {
    let rows = prepare_data(&areas());
    assert_eq!(
        VecDeque::from(vec![
            record("Region", "SAC", "Label"),
            record("EU Region", "10", "Else\"where\""),
            record("EU Region", "94", "Vietnam"),
            record("EU Region", "A0...C3", "Many"),
            record("Other, far", "FF", "Last"),
        ]),
        rows
    );
}

#[test]
fn to_csv_quotes_every_field() {
    let text = to_csv(prepare_data(&areas())).unwrap();
    assert_eq!(
        "\"Region\",\"SAC\",\"Label\"\n\
         \"EU Region\",\"10\",\"Else\"\"where\"\"\"\n\
         \"EU Region\",\"94\",\"Vietnam\"\n\
         \"EU Region\",\"A0...C3\",\"Many\"\n\
         \"Other, far\",\"FF\",\"Last\"\n",
        text
    );
}

#[test]
fn to_csv_of_no_rows_is_empty() {
    assert_eq!(Ok(String::new()), to_csv(VecDeque::new()));
}

#[test]
fn to_csv_keeps_empty_fields_and_line_feeds() {
    let rows = VecDeque::from(vec![record("", "a\nb", "\u{e9}")]);
    assert_eq!(Ok("\"\",\"a\nb\",\"\u{e9}\"\n".to_owned()), to_csv(rows));
}

#[test]
fn to_text_puts_an_empty_line_between_areas() {
    assert_eq!("", to_text(&[]));
    let all = areas();
    assert_eq!("Other, far\n  FF = Last", to_text(&all[2..]));
    assert_eq!(
        "EU Region\n  10 = Else\"where\"\n  94 = Vietnam\n  A0...C3 = Many\n\n\
         Nobody\n\n\n\
         Other, far\n  FF = Last",
        to_text(&all)
    );
}

#[test]
fn written_or_error_keeps_the_text_and_tells_its_lack() {
    assert_eq!(Ok("\"a\"\n".to_owned()), written_or_error(Some("\"a\"\n".to_owned())));
    assert_eq!(Ok(String::new()), written_or_error(Some(String::new())));
    assert_eq!(Err(SerializationError), written_or_error(None));
}
