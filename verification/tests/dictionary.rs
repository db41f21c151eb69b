use toki_pona_encoding::dict::{DefaultDictionary, Dictionary, VariationDictionary};
use toki_pona_encoding::error::Error;
use toki_pona_encoding::text::{chars_of, find, split_range, string_of};
use toki_pona_encoding::table::parse_rows;
use toki_pona_encoding::variation::{Variation, VARIATIONS};

const TABLE: &str = "tp,tp_S,tp_ZH\nmi,mi,我\na,,啊\nsina,sjna,\npona\n";

fn table() -> Dictionary {
    Dictionary::from_csv(TABLE).unwrap()
}

fn strings(words: &[&str]) -> Vec<String> {
    words.iter().map(|word| word.to_string()).collect()
}

#[test]
fn variation_codes_are_recognised() {
    assert_eq!(Variation::try_from("tp"), Ok(Variation::Default));
    assert_eq!(Variation::try_from("tp_S"), Ok(Variation::Tipunsin));
    assert_eq!(Variation::try_from("tp_ZH"), Ok(Variation::Hanzi));
}

#[test]
fn other_codes_name_no_variation() {
    assert_eq!(Variation::try_from(""), Err(()));
    assert_eq!(Variation::try_from("TP"), Err(()));
    assert_eq!(Variation::try_from("tp_"), Err(()));
    assert_eq!(Variation::try_from("tp_ZH "), Err(()));
    assert_eq!(Variation::try_from("en"), Err(()));
}

#[test]
fn default_variation_is_the_default() {
    assert_eq!(Variation::default(), Variation::Default);
}

#[test]
fn ordinals_are_distinct_and_in_range() {
    assert_eq!(Variation::Default.ordinal(), 0);
    assert_eq!(Variation::Tipunsin.ordinal(), 1);
    assert_eq!(Variation::Hanzi.ordinal(), 2);
    assert_eq!(VARIATIONS, 3);
}

#[test]
fn chars_of_keeps_every_character() {
    assert_eq!(chars_of("mi 我"), vec!['m', 'i', ' ', '我']);
    assert_eq!(chars_of(""), Vec::<char>::new());
}

#[test]
fn string_of_takes_the_range() {
    let chars = chars_of("toki pona");
    assert_eq!(string_of(&chars, 0, 4), "toki");
    assert_eq!(string_of(&chars, 5, 9), "pona");
    assert_eq!(string_of(&chars, 4, 4), "");
}

#[test]
fn find_gives_the_first_separator_or_the_end() {
    let chars = chars_of("a,b,,c");
    assert_eq!(find(&chars, 0, 6, ','), 1);
    assert_eq!(find(&chars, 2, 6, ','), 3);
    assert_eq!(find(&chars, 4, 6, ','), 4);
    assert_eq!(find(&chars, 5, 6, ','), 6);
    assert_eq!(find(&chars, 0, 1, ','), 1);
}

#[test]
fn split_range_keeps_empty_pieces() {
    let chars = chars_of("a,b,,c,");
    assert_eq!(split_range(&chars, 0, 7, ','), strings(&["a", "b", "", "c", ""]));
    assert_eq!(split_range(&chars, 0, 0, ','), strings(&[""]));
    assert_eq!(split_range(&chars, 0, 1, ','), strings(&["a"]));
    assert_eq!(split_range(&chars, 1, 2, ','), strings(&["", ""]));
}

#[test]
fn rows_end_at_line_feeds() {
    let rows = parse_rows(&chars_of("tp,tp_S\nmi,mi\n\na"));
    assert_eq!(
        rows,
        vec![strings(&["tp", "tp_S"]), strings(&["mi", "mi"]), strings(&[""]), strings(&["a"])]
    );
}

#[test]
fn rows_lose_the_carriage_return_before_a_line_feed() {
    let rows = parse_rows(&chars_of("tp\r\nmi\r\na\r"));
    assert_eq!(rows, vec![strings(&["tp"]), strings(&["mi"]), strings(&["a\r"])]);
}

#[test]
fn a_final_line_feed_adds_no_row() {
    assert_eq!(parse_rows(&chars_of("tp\nmi\n")), parse_rows(&chars_of("tp\nmi")));
    assert_eq!(parse_rows(&chars_of("")), Vec::<Vec<String>>::new());
    assert_eq!(parse_rows(&chars_of("\n")), vec![strings(&[""])]);
}

#[test]
fn default_dictionary_finds_the_last_position() {
    let dictionary = DefaultDictionary::new(strings(&["mi", "a", "mi"]));
    assert_eq!(dictionary.len(), 3);
    assert_eq!(dictionary.word(1), "a");
    assert_eq!(dictionary.position("mi"), Some(2));
    assert_eq!(dictionary.position("a"), Some(1));
    assert_eq!(dictionary.position("sina"), None);
}

#[test]
fn variation_dictionary_skips_missing_spellings() {
    let dictionary =
        VariationDictionary::new(vec![Some("我".to_string()), None, Some("啊".to_string())]);
    assert_eq!(dictionary.len(), 3);
    assert_eq!(dictionary.word(0), Some("我"));
    assert_eq!(dictionary.word(1), None);
    assert_eq!(dictionary.position("啊"), Some(2));
    assert_eq!(dictionary.position(""), None);
    assert_eq!(dictionary.position("mi"), None);
}

#[test]
fn from_csv_reads_the_words_in_order() {
    let dictionary = table();
    assert_eq!(dictionary.len(), 4);
    assert_eq!(dictionary.spelling(0, Variation::Default), "mi");
    assert_eq!(dictionary.spelling(1, Variation::Default), "a");
    assert_eq!(dictionary.spelling(2, Variation::Default), "sina");
    assert_eq!(dictionary.spelling(3, Variation::Default), "pona");
}

#[test]
fn from_csv_reads_the_variations() {
    let dictionary = table();
    assert_eq!(dictionary.spelling(0, Variation::Hanzi), "我");
    assert_eq!(dictionary.spelling(1, Variation::Hanzi), "啊");
    assert_eq!(dictionary.spelling(2, Variation::Tipunsin), "sjna");
}

#[test]
fn spelling_falls_back_to_the_default() {
    let dictionary = table();
    // an empty cell, a short row, and a variation that the table does not have
    assert_eq!(dictionary.spelling(1, Variation::Tipunsin), "a");
    assert_eq!(dictionary.spelling(2, Variation::Hanzi), "sina");
    assert_eq!(dictionary.spelling(3, Variation::Tipunsin), "pona");
    assert_eq!(dictionary.spelling(3, Variation::Hanzi), "pona");
    let plain = Dictionary::from_csv("tp\nmi").unwrap();
    for variation in [Variation::Default, Variation::Tipunsin, Variation::Hanzi] {
        assert_eq!(plain.spelling(0, variation), plain.spelling(0, Variation::Default));
    }
}

#[test]
fn lookup_searches_the_default_words_only() {
    let dictionary = table();
    assert_eq!(dictionary.lookup("mi"), Some(0));
    assert_eq!(dictionary.lookup("pona"), Some(3));
    assert_eq!(dictionary.lookup("sjna"), None);
    assert_eq!(dictionary.lookup("我"), None);
    assert_eq!(dictionary.lookup(""), None);
}

#[test]
fn lookup_in_searches_one_variation_only() {
    let dictionary = table();
    assert_eq!(dictionary.lookup_in("我", Variation::Hanzi), Some(0));
    assert_eq!(dictionary.lookup_in("啊", Variation::Hanzi), Some(1));
    assert_eq!(dictionary.lookup_in("sjna", Variation::Tipunsin), Some(2));
    assert_eq!(dictionary.lookup_in("sjna", Variation::Hanzi), None);
    assert_eq!(dictionary.lookup_in("sina", Variation::Tipunsin), None);
    assert_eq!(dictionary.lookup_in("pona", Variation::Hanzi), None);
    assert_eq!(dictionary.lookup_in("", Variation::Tipunsin), None);
    assert_eq!(dictionary.lookup_in("sina", Variation::Default), Some(2));
    let plain = Dictionary::from_csv("tp\nmi").unwrap();
    assert_eq!(plain.lookup_in("mi", Variation::Hanzi), None);
}

#[test]
fn a_repeated_word_is_found_at_its_last_position() {
    let dictionary = Dictionary::from_csv("tp,tp_S\nmi,x\na,x\nmi,").unwrap();
    assert_eq!(dictionary.lookup("mi"), Some(2));
    assert_eq!(dictionary.lookup_in("x", Variation::Tipunsin), Some(1));
}

#[test]
fn a_repeated_variation_takes_its_last_column() {
    let dictionary = Dictionary::from_csv("tp,tp_S,tp_S\nmi,one,two\na,three,").unwrap();
    assert_eq!(dictionary.spelling(0, Variation::Tipunsin), "two");
    assert_eq!(dictionary.spelling(1, Variation::Tipunsin), "a");
    assert_eq!(dictionary.lookup_in("one", Variation::Tipunsin), None);
    assert_eq!(dictionary.lookup_in("two", Variation::Tipunsin), Some(0));
}

#[test]
fn cells_beyond_the_header_are_ignored() {
    let dictionary = Dictionary::from_csv("tp,tp_S\nmi,mj,extra,more").unwrap();
    assert_eq!(dictionary.len(), 1);
    assert_eq!(dictionary.spelling(0, Variation::Tipunsin), "mj");
    assert_eq!(dictionary.spelling(0, Variation::Hanzi), "mi");
}

#[test]
fn an_empty_line_is_an_empty_word() {
    let dictionary = Dictionary::from_csv("tp\n\nmi").unwrap();
    assert_eq!(dictionary.len(), 2);
    assert_eq!(dictionary.spelling(0, Variation::Default), "");
    assert_eq!(dictionary.lookup(""), Some(0));
    assert_eq!(dictionary.lookup("mi"), Some(1));
}

#[test]
fn a_header_alone_is_an_empty_dictionary() {
    let dictionary = Dictionary::from_csv("tp,tp_ZH").unwrap();
    assert_eq!(dictionary.len(), 0);
    assert_eq!(dictionary.lookup("tp"), None);
}

#[test]
fn from_csv_reads_lines_that_end_in_carriage_returns() {
    let dictionary = Dictionary::from_csv("tp,tp_ZH\r\nmi,我\r\na,\r\n").unwrap();
    assert_eq!(dictionary.len(), 2);
    assert_eq!(dictionary.spelling(0, Variation::Hanzi), "我");
    assert_eq!(dictionary.spelling(1, Variation::Hanzi), "a");
    assert_eq!(dictionary.lookup("a"), Some(1));
}

#[test]
fn from_csv_rejects_a_missing_header() {
    assert_eq!(Dictionary::from_csv("").err(), Some(Error::MalformedDictionarySource));
}

#[test]
fn from_csv_rejects_a_header_that_does_not_start_with_the_default() {
    assert_eq!(Dictionary::from_csv("tp_S,tp\nmi,mi").err(), Some(Error::MalformedDictionarySource));
    assert_eq!(Dictionary::from_csv("mi\na").err(), Some(Error::MalformedDictionarySource));
    assert_eq!(Dictionary::from_csv("\ntp\nmi").err(), Some(Error::MalformedDictionarySource));
    assert_eq!(Dictionary::from_csv(" tp\nmi").err(), Some(Error::MalformedDictionarySource));
}

#[test]
fn from_csv_rejects_an_unknown_variation() {
    assert_eq!(Dictionary::from_csv("tp,tp_X\nmi,mi").err(), Some(Error::MalformedDictionarySource));
    assert_eq!(Dictionary::from_csv("tp,\nmi,mi").err(), Some(Error::MalformedDictionarySource));
    assert_eq!(
        Dictionary::from_csv("tp,tp_S,en\nmi,mi,me").err(),
        Some(Error::MalformedDictionarySource)
    );
}
