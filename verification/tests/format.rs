use cj_trainer::text::{
    chars_of, digit_of, find_char, is_space_char, parse, parse_rating, push_decimal, push_rating,
    read_line, text_of, trim_range, Line, LoadError,
};
use cj_trainer::{CJDatabase, Chinese};

fn entry(code: &str, character: &str, rating: i16) -> Chinese {
    Chinese { char: character.to_string(), code: code.to_string(), rating }
}

#[test]
fn load_reads_one_record_per_line() {
    let mut db = CJDatabase { v: Vec::new() };
    let outcome = db.load("aombc,題,-9\ncvmi,鏘,0\nybog,離,-2\n");
    assert_eq!(outcome, Ok(()));
    assert_eq!(db.v, vec![entry("aombc", "題", -9), entry("cvmi", "鏘", 0), entry("ybog", "離", -2)]);
}

#[test]
fn load_appends_to_what_is_there() {
    let mut db = CJDatabase { v: vec![entry("a", "日", 1)] };
    assert_eq!(db.load("b,月,2"), Ok(()));
    assert_eq!(db.v, vec![entry("a", "日", 1), entry("b", "月", 2)]);
}

#[test]
fn load_lowers_the_code_and_trims_the_fields() {
    let mut db = CJDatabase { v: Vec::new() };
    assert_eq!(db.load("  AOmbC , 題\t,  -9 \r\n"), Ok(()));
    assert_eq!(db.v, vec![entry("aombc", "題", -9)]);
}

#[test]
fn load_lowers_letters_beyond_ascii() {
    let mut db = CJDatabase { v: Vec::new() };
    assert_eq!(db.load("ÉCOLE,x,1"), Ok(()));
    assert_eq!(db.v, vec![entry("école", "x", 1)]);
}

#[test]
fn load_passes_over_short_lines() {
    let mut db = CJDatabase { v: Vec::new() };
    assert_eq!(db.load("\nno commas here\none,comma\na,日,3\n\n"), Ok(()));
    assert_eq!(db.v, vec![entry("a", "日", 3)]);
}

#[test]
fn load_ignores_fields_behind_the_third() {
    let mut db = CJDatabase { v: Vec::new() };
    assert_eq!(db.load("a,日,3,extra,fields"), Ok(()));
    assert_eq!(db.v, vec![entry("a", "日", 3)]);
}

#[test]
fn load_fails_on_a_rating_that_is_no_number() {
    let mut db = CJDatabase { v: vec![entry("z", "重", 1)] };
    let outcome = db.load("a,日,3\nshort\nb,月,x\nc,金,y\n");
    assert_eq!(outcome, Err(LoadError { line: 3 }));
    assert_eq!(db.v, vec![entry("z", "重", 1)]);
}

#[test]
fn load_fails_on_ratings_out_of_range_or_badly_written() {
    for bad in ["a,b,32768", "a,b,-32769", "a,b,", "a,b,-", "a,b,+5", "a,b,1 2", "a,b,1.5", "a,b,١"] {
        let mut db = CJDatabase { v: Vec::new() };
        assert_eq!(db.load(bad), Err(LoadError { line: 1 }));
        assert!(db.v.is_empty());
    }
}

#[test]
fn load_reads_the_extreme_ratings() {
    let mut db = CJDatabase { v: Vec::new() };
    assert_eq!(db.load("a,b,32767\nc,d,-32768\ne,f,-0\ng,h,000000000000000000000007"), Ok(()));
    let ratings: Vec<i16> = db.v.iter().map(|r| r.rating).collect();
    assert_eq!(ratings, vec![32767, -32768, 0, 7]);
}

#[test]
fn load_of_an_empty_text_adds_nothing() {
    let mut db = CJDatabase { v: Vec::new() };
    assert_eq!(db.load(""), Ok(()));
    assert!(db.v.is_empty());
}

#[test]
fn parse_reports_the_first_malformed_line() {
    assert_eq!(parse("a,b,c\nd,e,f").err(), Some(LoadError { line: 1 }));
    assert_eq!(parse("\n\n\na,b,zero").err(), Some(LoadError { line: 4 }));
    assert_eq!(parse("a,b,1").ok(), Some(vec![entry("a", "b", 1)]));
}

#[test]
fn save_writes_code_character_rating() {
    let db = CJDatabase { v: vec![entry("aombc", "題", -9), entry("cvmi", "鏘", 0), entry("ybog", "離", 12)] };
    assert_eq!(db.save(), "aombc,題,-9\ncvmi,鏘,0\nybog,離,12\n");
}

#[test]
fn save_of_an_empty_store_is_empty() {
    let db = CJDatabase { v: Vec::new() };
    assert_eq!(db.save(), "");
}

#[test]
fn save_keeps_the_code_as_given() {
    let db = CJDatabase { v: vec![entry("MK", "天", 1)] };
    assert_eq!(db.save(), "MK,天,1\n");
}

#[test]
fn save_then_load_gives_the_records_back() {
    let records = vec![
        entry("aombc", "題", -9),
        entry("cvmi", "鏘", 0),
        entry("ybog", "離", -2),
        entry("mk", "天", 32767),
        entry("a", "日", -32768),
        entry("", "", 10),
    ];
    let db = CJDatabase { v: records.clone() };
    let mut back = CJDatabase { v: Vec::new() };
    assert_eq!(back.load(&db.save()), Ok(()));
    assert_eq!(back.v, records);
}

#[test]
fn a_comma_in_the_character_is_not_read_back() {
    let db = CJDatabase { v: vec![entry("a", ",", 4)] };
    let mut back = CJDatabase { v: Vec::new() };
    assert_eq!(back.load(&db.save()), Err(LoadError { line: 1 }));
}

#[test]
fn chars_of_gives_each_character() {
    assert_eq!(chars_of("a題,"), vec!['a', '題', ',']);
    assert_eq!(chars_of(""), Vec::<char>::new());
}

#[test]
fn white_space_is_what_unicode_says() {
    for c in ['\t', '\n', '\u{b}', '\u{c}', '\r', ' ', '\u{85}', '\u{a0}', '\u{1680}', '\u{2000}',
        '\u{2005}', '\u{200a}', '\u{2028}', '\u{2029}', '\u{202f}', '\u{205f}', '\u{3000}'] {
        assert!(is_space_char(c));
        assert!(c.is_whitespace());
    }
    for c in ['a', '0', '-', ',', '\u{8}', '\u{e}', '\u{200b}', '\u{feff}', '題'] {
        assert!(!is_space_char(c));
        assert!(!c.is_whitespace());
    }
}

#[test]
fn find_char_stops_at_the_first_match_or_the_end() {
    let chars = chars_of("ab,cd,e");
    assert_eq!(find_char(&chars, 0, 7, ','), 2);
    assert_eq!(find_char(&chars, 3, 7, ','), 5);
    assert_eq!(find_char(&chars, 6, 7, ','), 7);
    assert_eq!(find_char(&chars, 0, 2, ','), 2);
    assert_eq!(find_char(&chars, 4, 4, ','), 4);
}

#[test]
fn trim_range_drops_white_space_at_both_ends() {
    let chars = chars_of(" \ta b\u{3000} ");
    assert_eq!(trim_range(&chars, 0, chars.len()), (2, 5));
    let blank = chars_of("   ");
    assert_eq!(trim_range(&blank, 0, 3), (3, 3));
    assert_eq!(trim_range(&blank, 1, 1), (1, 1));
}

#[test]
fn text_of_copies_a_range() {
    let chars = chars_of("a題bc");
    assert_eq!(text_of(&chars, 1, 3), "題b");
    assert_eq!(text_of(&chars, 2, 2), "");
}

#[test]
fn parse_rating_reads_signed_decimals() {
    let chars = chars_of("-12x345");
    assert_eq!(parse_rating(&chars, 0, 3), Some(-12));
    assert_eq!(parse_rating(&chars, 1, 3), Some(12));
    assert_eq!(parse_rating(&chars, 0, 4), None);
    assert_eq!(parse_rating(&chars, 0, 1), None);
    assert_eq!(parse_rating(&chars, 2, 2), None);
    assert_eq!(parse_rating(&chars, 4, 7), Some(345));
}

#[test]
fn read_line_tells_the_three_kinds_of_line() {
    let chars = chars_of("Mk , 天,5");
    match read_line(&chars, 0, chars.len()) {
        Line::Record(r) => assert_eq!(r, entry("mk", "天", 5)),
        _ => panic!("a record was expected"),
    }
    assert!(matches!(read_line(&chars, 0, 5), Line::Skipped));
    assert!(matches!(read_line(&chars, 0, 7), Line::Malformed));
}

#[test]
fn digits_are_written_in_decimal() {
    assert_eq!(digit_of(0), '0');
    assert_eq!(digit_of(9), '9');
    let mut text = String::from("n=");
    push_decimal(&mut text, 0);
    push_decimal(&mut text, 4071);
    assert_eq!(text, "n=04071");
    let mut text = String::new();
    push_rating(&mut text, -32768);
    push_rating(&mut text, 32767);
    push_rating(&mut text, 0);
    push_rating(&mut text, -1);
    assert_eq!(text, "-32768327670-1");
}
