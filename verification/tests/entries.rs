use fst_gaddag::builder::build_entries;
use fst_gaddag::entry::{
    all_letters, demangle_item, is_valid_word, make_entry, reversed, word_entries, MAX_WORD_LENGTH, SEP,
    SEP_STR,
};
use fst_gaddag::error::GaddagError;

fn words(list: &[&str]) -> Vec<String> {
    list.iter().map(|w| w.to_string()).collect()
}

fn rows(list: &[&str]) -> Vec<Vec<u8>> {
    list.iter().map(|w| w.as_bytes().to_vec()).collect()
}

#[test]
fn the_separator_is_a_comma() {
    assert_eq!(SEP, b',');
    assert_eq!(SEP_STR.as_bytes(), &[SEP]);
    assert_eq!(MAX_WORD_LENGTH, 15);
}

#[test]
fn letters_are_upper_case_a_to_z() {
    assert!(all_letters(b"AZ"));
    assert!(all_letters(b""));
    assert!(!all_letters(b"@"));
    assert!(!all_letters(b"["));
    assert!(!all_letters(b"a"));
    assert!(!all_letters(b"A,B"));
    assert!(!all_letters("É".as_bytes()));
}

#[test]
fn a_word_has_one_to_fifteen_letters() {
    assert!(is_valid_word(b"A"));
    assert!(is_valid_word(b"ABCDEFGHIJKLMNO"));
    assert!(!is_valid_word(b""));
    assert!(!is_valid_word(b"ABCDEFGHIJKLMNOP"));
    assert!(!is_valid_word(b"CAReS"));
}

#[test]
fn reversed_turns_the_bytes_round() {
    assert_eq!(reversed(b"CARES"), b"SERAC".to_vec());
    assert_eq!(reversed(b""), Vec::<u8>::new());
    assert_eq!(reversed(b"A"), b"A".to_vec());
}

#[test]
fn make_entry_splits_at_the_given_point() {
    assert_eq!(make_entry(b"CARES", 5), b"SERAC".to_vec());
    assert_eq!(make_entry(b"CARES", 4), b"ERAC,S".to_vec());
    assert_eq!(make_entry(b"CARES", 3), b"RAC,ES".to_vec());
    assert_eq!(make_entry(b"CARES", 2), b"AC,RES".to_vec());
    assert_eq!(make_entry(b"CARES", 1), b"C,ARES".to_vec());
}

#[test]
fn word_entries_gives_the_whole_entry_and_then_the_splits_downwards() {
    assert_eq!(word_entries(b"CARES"), rows(&["SERAC", "ERAC,S", "RAC,ES", "AC,RES", "C,ARES"]));
    assert_eq!(word_entries(b"SERUM"), rows(&["MURES", "URES,M", "RES,UM", "ES,RUM", "S,ERUM"]));
    assert_eq!(
        word_entries(b"CARESS"),
        rows(&["SSERAC", "SERAC,S", "ERAC,SS", "RAC,ESS", "AC,RESS", "C,ARESS"])
    );
}

#[test]
fn a_word_of_one_letter_has_one_entry() {
    assert_eq!(word_entries(b"A"), rows(&["A"]));
    assert_eq!(word_entries(b""), Vec::<Vec<u8>>::new());
}

#[test]
fn a_word_of_n_letters_has_n_different_entries() {
    let mut entries = word_entries(b"ABCDEFGHIJKLMNO");
    assert_eq!(entries.len(), 15);
    entries.sort();
    entries.dedup();
    assert_eq!(entries.len(), 15);
}

#[test]
fn demangle_item_gives_the_word_back() {
    assert_eq!(demangle_item(b"SERAC"), b"CARES".to_vec());
    assert_eq!(demangle_item(b"AC,RES"), b"CARES".to_vec());
    assert_eq!(demangle_item(b"TAOB,ING"), b"BOATING".to_vec());
    assert_eq!(demangle_item(b"C,ARESS"), b"CARESS".to_vec());
    assert_eq!(demangle_item(b""), Vec::<u8>::new());
}

#[test]
fn demangle_item_splits_at_the_first_separator() {
    assert_eq!(demangle_item(b"BA,C,D"), b"ABC,D".to_vec());
    assert_eq!(demangle_item(b",AB"), b"AB".to_vec());
    assert_eq!(demangle_item(b"AB,"), b"BA".to_vec());
}

#[test]
fn demangling_undoes_entry_generation_at_every_split_point() {
    for word in ["A", "AB", "CARES", "CARESS", "SERUM", "ABCDEFGHIJKLMNO"] {
        for k in 1..=word.len() {
            assert_eq!(demangle_item(&make_entry(word.as_bytes(), k)), word.as_bytes().to_vec());
        }
        for entry in word_entries(word.as_bytes()) {
            assert_eq!(demangle_item(&entry), word.as_bytes().to_vec());
        }
    }
}

#[test]
fn build_entries_sorts_by_byte_value() {
    assert_eq!(
        build_entries(words(&["CARES"])),
        Ok(rows(&["AC,RES", "C,ARES", "ERAC,S", "RAC,ES", "SERAC"]))
    );
}

#[test]
fn build_entries_of_the_three_words() {
    let mut expected = rows(&[
        "SERAC", "ERAC,S", "RAC,ES", "AC,RES", "C,ARES", "MURES", "URES,M", "RES,UM", "ES,RUM", "S,ERUM",
        "SSERAC", "SERAC,S", "ERAC,SS", "RAC,ESS", "AC,RESS", "C,ARESS",
    ]);
    expected.sort();
    assert_eq!(build_entries(words(&["CARES", "CARESS", "SERUM"])), Ok(expected));
}

#[test]
fn build_entries_holds_each_entry_once() {
    assert_eq!(build_entries(words(&["CARES", "CARES"])), build_entries(words(&["CARES"])));
    assert_eq!(build_entries(words(&["AA"])), Ok(rows(&["A,A", "AA"])));
}

#[test]
fn build_entries_does_not_depend_on_the_order_of_the_words() {
    let one = build_entries(words(&["CARES", "CARESS", "SERUM"]));
    let other = build_entries(words(&["SERUM", "CARES", "CARESS", "SERUM"]));
    assert!(one.is_ok());
    assert_eq!(one, other);
}

#[test]
fn build_entries_of_nothing_is_empty() {
    assert_eq!(build_entries(Vec::new()), Ok(Vec::new()));
}

#[test]
fn build_entries_is_ascending_without_repeats() {
    let entries = build_entries(words(&["ZEBRA", "APPLE", "MANGO", "APPLES", "A", "ZEBRAS"])).unwrap();
    assert_eq!(entries.len(), 5 + 5 + 5 + 6 + 1 + 6);
    for pair in entries.windows(2) {
        assert!(pair[0] < pair[1]);
    }
}

#[test]
fn build_entries_refuses_the_first_word_that_is_none() {
    assert_eq!(
        build_entries(words(&["CARES", "", "serum"])),
        Err(GaddagError::InvalidWord(String::new()))
    );
    assert_eq!(
        build_entries(words(&["CARES", "serum", ""])),
        Err(GaddagError::InvalidWord("serum".to_string()))
    );
    assert_eq!(
        build_entries(words(&["CA,RES"])),
        Err(GaddagError::InvalidWord("CA,RES".to_string()))
    );
    assert_eq!(
        build_entries(words(&["ABCDEFGHIJKLMNOP"])),
        Err(GaddagError::InvalidWord("ABCDEFGHIJKLMNOP".to_string()))
    );
    assert_eq!(
        build_entries(words(&["ÉTÉ"])),
        Err(GaddagError::InvalidWord("ÉTÉ".to_string()))
    );
}

#[test]
fn an_error_can_be_cloned() {
    let e = GaddagError::InvalidWord("x".to_string());
    assert_eq!(e.clone(), e);
    assert_eq!(GaddagError::InvalidQuery.clone(), GaddagError::InvalidQuery);
    assert_eq!(GaddagError::CorruptIndex.clone(), GaddagError::CorruptIndex);
    assert_eq!(GaddagError::BuildFailure.clone(), GaddagError::BuildFailure);
}
