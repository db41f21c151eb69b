use toki_pona_encoding::dict::Dictionary;
use toki_pona_encoding::dict_set::{DictionarySet, WordIdentifier, WORD_OFFSET};
use toki_pona_encoding::error::Error;
use toki_pona_encoding::variation::Variation;

fn two_dictionaries() -> DictionarySet {
    DictionarySet::new(vec![
        Dictionary::from_csv("tp,tp_ZH\nmi,我\na,啊\nsina,").unwrap(),
        Dictionary::from_csv("tp,tp_S,tp_ZH\nkijetesantakalu,a,\nmi,,sina\nn,mi,").unwrap(),
    ])
}

fn numbered(count: usize) -> Dictionary {
    let mut table = String::from("tp");
    for i in 0..count {
        table.push_str(&format!("\nw{}", i));
    }
    Dictionary::from_csv(&table).unwrap()
}

fn id(dict: usize, word: usize) -> WordIdentifier {
    WordIdentifier { dict, word }
}

#[test]
fn get_identifier_takes_the_first_dictionary_that_has_the_word() {
    let set = two_dictionaries();
    assert_eq!(set.get_identifier("mi"), Some(id(0, 0)));
    assert_eq!(set.get_identifier("sina"), Some(id(0, 2)));
    assert_eq!(set.get_identifier("kijetesantakalu"), Some(id(1, 0)));
    assert_eq!(set.get_identifier("n"), Some(id(1, 2)));
    assert_eq!(set.get_identifier("我"), None);
    assert_eq!(set.get_identifier(""), None);
}

#[test]
fn get_identifier_variation_in_the_default_is_get_identifier() {
    let set = two_dictionaries();
    for word in ["mi", "a", "sina", "n", "我", "x", ""] {
        assert_eq!(set.get_identifier_variation(word, Variation::Default), set.get_identifier(word));
    }
}

#[test]
fn get_identifier_variation_prefers_the_variation() {
    let set = two_dictionaries();
    // "sina" is the hanzi spelling of the second dictionary's second word,
    // and the default spelling of the first dictionary's third.
    assert_eq!(set.get_identifier_variation("sina", Variation::Hanzi), Some(id(1, 1)));
    assert_eq!(set.get_identifier_variation("sina", Variation::Default), Some(id(0, 2)));
    // "a" and "mi" are tipunsin spellings in the second dictionary only.
    assert_eq!(set.get_identifier_variation("a", Variation::Tipunsin), Some(id(1, 0)));
    assert_eq!(set.get_identifier_variation("mi", Variation::Tipunsin), Some(id(1, 2)));
    assert_eq!(set.get_identifier_variation("我", Variation::Hanzi), Some(id(0, 0)));
}

#[test]
fn get_identifier_variation_falls_back_to_the_default() {
    let set = two_dictionaries();
    assert_eq!(set.get_identifier_variation("mi", Variation::Hanzi), Some(id(0, 0)));
    assert_eq!(set.get_identifier_variation("n", Variation::Hanzi), Some(id(1, 2)));
    assert_eq!(set.get_identifier_variation("sina", Variation::Tipunsin), Some(id(0, 2)));
}

#[test]
fn get_identifier_variation_finds_nothing_for_an_unknown_word() {
    let set = two_dictionaries();
    assert_eq!(set.get_identifier_variation("pona", Variation::Hanzi), None);
    assert_eq!(set.get_identifier_variation("我", Variation::Tipunsin), None);
    assert_eq!(set.get_identifier_variation("", Variation::Hanzi), None);
}

#[test]
fn get_word_variation_writes_the_word_in_the_variation() {
    let set = two_dictionaries();
    assert_eq!(set.get_word_variation(id(0, 0), Variation::Default), "mi");
    assert_eq!(set.get_word_variation(id(0, 0), Variation::Hanzi), "我");
    assert_eq!(set.get_word_variation(id(1, 0), Variation::Tipunsin), "a");
    assert_eq!(set.get_word_variation(id(1, 1), Variation::Hanzi), "sina");
}

#[test]
fn get_word_variation_falls_back_to_the_default() {
    let set = two_dictionaries();
    assert_eq!(set.get_word_variation(id(0, 2), Variation::Hanzi), "sina");
    assert_eq!(set.get_word_variation(id(0, 1), Variation::Tipunsin), "a");
    assert_eq!(set.get_word_variation(id(1, 1), Variation::Tipunsin), "mi");
    assert_eq!(set.get_word_variation(id(1, 0), Variation::Hanzi), "kijetesantakalu");
}

#[test]
fn contains_tells_the_words_of_the_set() {
    let set = two_dictionaries();
    assert!(set.contains(id(0, 0)));
    assert!(set.contains(id(0, 2)));
    assert!(set.contains(id(1, 2)));
    assert!(!set.contains(id(0, 3)));
    assert!(!set.contains(id(1, 3)));
    assert!(!set.contains(id(2, 0)));
}

#[test]
fn word_to_bytes_counts_through_the_dictionaries() {
    let set = two_dictionaries();
    assert_eq!(WORD_OFFSET, 0x22);
    assert_eq!(set.word_to_bytes(id(0, 0)), Ok(vec![0x22]));
    assert_eq!(set.word_to_bytes(id(0, 1)), Ok(vec![0x23]));
    assert_eq!(set.word_to_bytes(id(0, 2)), Ok(vec![0x24]));
    assert_eq!(set.word_to_bytes(id(1, 0)), Ok(vec![0x25]));
    assert_eq!(set.word_to_bytes(id(1, 2)), Ok(vec![0x27]));
}

#[test]
fn word_from_bytes_counts_through_the_dictionaries() {
    let set = two_dictionaries();
    assert_eq!(set.word_from_bytes(&[0x22]), Ok(id(0, 0)));
    assert_eq!(set.word_from_bytes(&[0x24]), Ok(id(0, 2)));
    assert_eq!(set.word_from_bytes(&[0x25]), Ok(id(1, 0)));
    assert_eq!(set.word_from_bytes(&[0x27]), Ok(id(1, 2)));
}

#[test]
fn word_from_bytes_skips_empty_dictionaries() {
    let set = DictionarySet::new(vec![numbered(0), numbered(2), numbered(0), numbered(1)]);
    assert_eq!(set.word_from_bytes(&[0x22]), Ok(id(1, 0)));
    assert_eq!(set.word_from_bytes(&[0x23]), Ok(id(1, 1)));
    assert_eq!(set.word_from_bytes(&[0x24]), Ok(id(3, 0)));
    assert_eq!(set.word_from_bytes(&[0x25]), Err(Error::InvalidByte));
    assert_eq!(set.word_to_bytes(id(3, 0)), Ok(vec![0x24]));
}

#[test]
fn every_word_decodes_to_itself() {
    let set = DictionarySet::new(vec![numbered(100), numbered(0), numbered(100), numbered(22)]);
    for (dict, count) in [(0, 100), (1, 0), (2, 100), (3, 22)] {
        for word in 0..count {
            let bytes = set.word_to_bytes(id(dict, word)).unwrap();
            assert_eq!(bytes.len(), 1);
            assert_eq!(set.word_from_bytes(&bytes), Ok(id(dict, word)));
        }
    }
}

#[test]
fn every_byte_of_a_word_encodes_to_itself() {
    let set = DictionarySet::new(vec![numbered(100), numbered(122), numbered(50)]);
    for byte in 0x22..=0xffu8 {
        let word = set.word_from_bytes(&[byte]).unwrap();
        assert!(set.contains(word));
        assert_eq!(set.word_to_bytes(word), Ok(vec![byte]));
    }
}

#[test]
fn the_last_single_byte_word_is_at_index_221() {
    let set = DictionarySet::new(vec![numbered(200), numbered(100)]);
    assert_eq!(set.word_to_bytes(id(1, 21)), Ok(vec![0xff]));
    assert_eq!(set.word_to_bytes(id(1, 22)), Err(Error::UnsupportedEncodingRange));
    assert_eq!(set.word_to_bytes(id(1, 99)), Err(Error::UnsupportedEncodingRange));
    let large = DictionarySet::new(vec![numbered(300)]);
    assert_eq!(large.word_to_bytes(id(0, 221)), Ok(vec![0xff]));
    assert_eq!(large.word_to_bytes(id(0, 222)), Err(Error::UnsupportedEncodingRange));
    assert_eq!(large.word_to_bytes(id(0, usize::MAX)), Err(Error::UnsupportedEncodingRange));
}

#[test]
fn words_behind_too_many_others_have_no_encoding() {
    let set = DictionarySet::new(vec![numbered(222), numbered(1)]);
    assert_eq!(set.word_to_bytes(id(0, 221)), Ok(vec![0xff]));
    assert_eq!(set.word_to_bytes(id(1, 0)), Err(Error::UnsupportedEncodingRange));
}

#[test]
fn a_word_of_no_dictionary_has_no_encoding() {
    let set = two_dictionaries();
    assert_eq!(set.word_to_bytes(id(2, 0)), Err(Error::UnsupportedEncodingRange));
    assert_eq!(
        DictionarySet::new(Vec::new()).word_to_bytes(id(0, 0)),
        Err(Error::UnsupportedEncodingRange)
    );
}

#[test]
fn word_from_bytes_takes_one_byte_only() {
    let set = two_dictionaries();
    assert_eq!(set.word_from_bytes(&[]), Err(Error::UnsupportedEncodingRange));
    assert_eq!(set.word_from_bytes(&[0x22, 0x23]), Err(Error::UnsupportedEncodingRange));
}

#[test]
fn word_from_bytes_rejects_bytes_that_are_no_words() {
    let set = two_dictionaries();
    for byte in 0x00..0x22u8 {
        assert_eq!(set.word_from_bytes(&[byte]), Err(Error::InvalidByte));
    }
    assert_eq!(set.word_from_bytes(&[0x28]), Err(Error::InvalidByte));
    assert_eq!(set.word_from_bytes(&[0xff]), Err(Error::InvalidByte));
}
