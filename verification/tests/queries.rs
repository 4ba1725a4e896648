use fst_gaddag::{Gaddag, GaddagError};

fn words(list: &[&str]) -> Vec<String> {
    list.iter().map(|w| w.to_string()).collect()
}

fn as_set(mut list: Vec<String>) -> Vec<String> {
    list.sort();
    list.dedup();
    list
}

fn sample() -> Gaddag {
    Gaddag::from_words(words(&["CARES", "CARESS", "SERUM"])).unwrap()
}

const DICTIONARY: [&str; 12] = [
    "A", "AA", "AB", "ABA", "BANANA", "CARE", "CARES", "CARESS", "SCARE", "SERUM", "RUM", "ABCDEFGHIJKLMNO",
];

#[test]
fn contains_finds_the_words_that_were_inserted() {
    let g = sample();
    assert_eq!(g.contains("CARES"), Ok(true));
    assert_eq!(g.contains("CARESS"), Ok(true));
    assert_eq!(g.contains("SERUM"), Ok(true));
}

#[test]
fn contains_refuses_what_was_not_inserted() {
    let g = sample();
    assert_eq!(g.contains("CARE"), Ok(false));
    assert_eq!(g.contains("SERAC"), Ok(false));
    assert_eq!(g.contains("ARES"), Ok(false));
    assert_eq!(g.contains("CARESSS"), Ok(false));
}

#[test]
fn contains_of_the_empty_query_is_false() {
    assert_eq!(sample().contains(""), Ok(false));
}

#[test]
fn ends_with_es_gives_cares() {
    assert_eq!(sample().ends_with("ES"), Ok(words(&["CARES"])));
}

#[test]
fn starts_with_care_gives_cares_and_caress() {
    assert_eq!(as_set(sample().starts_with("CARE").unwrap()), words(&["CARES", "CARESS"]));
}

#[test]
fn substring_rum_gives_serum() {
    assert_eq!(as_set(sample().substring("RUM").unwrap()), words(&["SERUM"]));
}

#[test]
fn substring_ar_gives_cares_and_caress() {
    assert_eq!(as_set(sample().substring("AR").unwrap()), words(&["CARES", "CARESS"]));
}

#[test]
fn answers_come_in_the_order_of_the_entries() {
    let g = sample();
    assert_eq!(g.substring("S"), Ok(words(&["SERUM", "CARES", "CARESS", "CARESS"])));
    assert_eq!(g.ends_with("S"), Ok(words(&["CARES", "CARESS"])));
    assert_eq!(g.starts_with("CARE"), Ok(words(&["CARES", "CARESS"])));
    assert_eq!(g.starts_with("S"), Ok(words(&["SERUM"])));
}

#[test]
fn ends_with_leaves_out_the_split_entries() {
    let g = sample();
    assert_eq!(g.ends_with("CARES"), Ok(words(&["CARES"])));
    assert_eq!(g.ends_with("SERAC"), Ok(Vec::new()));
    assert_eq!(g.ends_with("UM"), Ok(words(&["SERUM"])));
    assert_eq!(g.ends_with("CA"), Ok(Vec::new()));
}

#[test]
fn starts_with_a_whole_word_gives_only_longer_words() {
    let g = sample();
    assert_eq!(g.starts_with("CARES"), Ok(words(&["CARESS"])));
    assert_eq!(g.starts_with("CARESS"), Ok(Vec::new()));
    assert_eq!(g.starts_with("X"), Ok(Vec::new()));
}

#[test]
fn the_empty_query_gives_every_word() {
    let g = sample();
    let all = words(&["CARES", "CARESS", "SERUM"]);
    assert_eq!(as_set(g.starts_with("").unwrap()), all);
    assert_eq!(as_set(g.ends_with("").unwrap()), all);
    assert_eq!(as_set(g.substring("").unwrap()), all);
    assert_eq!(g.ends_with(""), Ok(words(&["SERUM", "CARES", "CARESS"])));
    assert_eq!(g.starts_with(""), g.ends_with(""));
    assert_eq!(g.substring("").unwrap().len(), 16);
}

#[test]
fn the_empty_dictionary_answers_with_nothing() {
    let g = Gaddag::from_words(Vec::new()).unwrap();
    for q in ["", "A", "CARES"] {
        assert_eq!(g.contains(q), Ok(false));
        assert_eq!(g.starts_with(q), Ok(Vec::new()));
        assert_eq!(g.ends_with(q), Ok(Vec::new()));
        assert_eq!(g.substring(q), Ok(Vec::new()));
    }
}

#[test]
fn a_query_that_holds_no_letter_is_invalid() {
    let g = sample();
    for q in ["AC,RES", ",", "a", "CARES ", "É", "C4"] {
        assert_eq!(g.contains(q), Err(GaddagError::InvalidQuery));
        assert_eq!(g.starts_with(q), Err(GaddagError::InvalidQuery));
        assert_eq!(g.ends_with(q), Err(GaddagError::InvalidQuery));
        assert_eq!(g.substring(q), Err(GaddagError::InvalidQuery));
    }
}

#[test]
fn a_query_may_be_longer_than_any_word() {
    let g = sample();
    assert_eq!(g.contains("ABCDEFGHIJKLMNOPQRSTUVWXYZ"), Ok(false));
    assert_eq!(g.substring("ABCDEFGHIJKLMNOPQRSTUVWXYZ"), Ok(Vec::new()));
}

#[test]
fn from_words_refuses_a_list_with_an_entry_that_is_no_word() {
    assert_eq!(
        Gaddag::from_words(words(&["CARES", "care", "SERUM"])).err(),
        Some(GaddagError::InvalidWord("care".to_string()))
    );
    assert_eq!(
        Gaddag::from_words(words(&["", "care"])).err(),
        Some(GaddagError::InvalidWord(String::new()))
    );
    assert_eq!(
        Gaddag::from_words(words(&["CARES", "SE,RUM"])).err(),
        Some(GaddagError::InvalidWord("SE,RUM".to_string()))
    );
}

#[test]
fn every_inserted_word_is_contained_and_nothing_else() {
    let g = Gaddag::from_words(words(&DICTIONARY)).unwrap();
    for w in DICTIONARY {
        assert_eq!(g.contains(w), Ok(true));
    }
    for w in ["B", "BA", "BAN", "ANANAB", "CAR", "CARESSS", "MURES", "ABCDEFGHIJKLMN", "Z"] {
        assert_eq!(g.contains(w), Ok(false));
    }
}

#[test]
fn every_split_of_a_word_finds_it_from_both_sides() {
    let g = Gaddag::from_words(words(&DICTIONARY)).unwrap();
    for w in DICTIONARY {
        for k in 0..w.len() {
            assert!(g.starts_with(&w[..k]).unwrap().contains(&w.to_string()));
        }
        for k in 0..=w.len() {
            assert!(g.ends_with(&w[k..]).unwrap().contains(&w.to_string()));
        }
    }
}

#[test]
fn every_part_of_a_word_finds_it() {
    let g = Gaddag::from_words(words(&DICTIONARY)).unwrap();
    for w in DICTIONARY {
        for i in 0..=w.len() {
            for j in i..=w.len() {
                assert!(g.substring(&w[i..j]).unwrap().contains(&w.to_string()));
            }
        }
    }
}

#[test]
fn answers_hold_only_words_that_match() {
    let g = Gaddag::from_words(words(&DICTIONARY)).unwrap();
    for q in ["", "A", "S", "AN", "RE", "CARE", "RUM", "ANA", "SS", "O", "ZZ"] {
        let ends: Vec<String> = DICTIONARY.iter().filter(|w| w.ends_with(q)).map(|w| w.to_string()).collect();
        assert_eq!(as_set(g.ends_with(q).unwrap()), as_set(ends));
        for w in g.ends_with(q).unwrap() {
            assert!(w.ends_with(q));
        }
        let holds: Vec<String> = DICTIONARY.iter().filter(|w| w.contains(q)).map(|w| w.to_string()).collect();
        assert_eq!(as_set(g.substring(q).unwrap()), as_set(holds));
        let starts: Vec<String> = DICTIONARY
            .iter()
            .filter(|w| w.starts_with(q) && (q.is_empty() || w.len() > q.len()))
            .map(|w| w.to_string())
            .collect();
        assert_eq!(as_set(g.starts_with(q).unwrap()), as_set(starts));
    }
}

#[test]
fn building_twice_gives_the_same_answers() {
    let one = Gaddag::from_words(words(&["CARES", "CARESS", "SERUM"])).unwrap();
    let other = Gaddag::from_words(words(&["SERUM", "CARESS", "CARES", "SERUM"])).unwrap();
    for q in ["", "S", "CARE", "ES", "RUM", "AR", "X"] {
        assert_eq!(one.contains(q), other.contains(q));
        assert_eq!(one.starts_with(q), other.starts_with(q));
        assert_eq!(one.ends_with(q), other.ends_with(q));
        assert_eq!(one.substring(q), other.substring(q));
        assert_eq!(one.substring(q), one.substring(q));
    }
    assert_eq!(one.as_bytes(), other.as_bytes());
}

#[test]
fn the_written_form_gives_the_same_index_back() {
    let g = sample();
    let bytes = g.as_bytes().to_vec();
    assert!(bytes.len() >= 36);
    let back = Gaddag::from_bytes(bytes.clone()).unwrap();
    assert_eq!(back.as_bytes(), &bytes[..]);
    for q in ["", "S", "CARE", "CARES", "ES", "RUM", "AR", "X"] {
        assert_eq!(back.contains(q), g.contains(q));
        assert_eq!(back.starts_with(q), g.starts_with(q));
        assert_eq!(back.ends_with(q), g.ends_with(q));
        assert_eq!(back.substring(q), g.substring(q));
    }
}

#[test]
fn bytes_that_are_no_index_are_corrupt() {
    assert_eq!(Gaddag::from_bytes(Vec::new()).err(), Some(GaddagError::CorruptIndex));
    assert_eq!(Gaddag::from_bytes(vec![1; 35]).err(), Some(GaddagError::CorruptIndex));
    assert_eq!(Gaddag::from_bytes(vec![0; 64]).err(), Some(GaddagError::CorruptIndex));
    assert_eq!(Gaddag::from_bytes(vec![0xff; 64]).err(), Some(GaddagError::CorruptIndex));
}

#[test]
fn from_read_and_from_build_name_the_failure() {
    let unsorted: Vec<&[u8]> = vec![b"B", b"A"];
    assert_eq!(
        Gaddag::from_build(fst::Set::from_iter(unsorted.clone())).err(),
        Some(GaddagError::BuildFailure)
    );
    assert_eq!(
        Gaddag::from_read(fst::Set::from_iter(unsorted)).err(),
        Some(GaddagError::CorruptIndex)
    );
    assert_eq!(
        Gaddag::from_read(fst::Set::new(vec![0u8; 8])).err(),
        Some(GaddagError::CorruptIndex)
    );
    let sorted: Vec<&[u8]> = vec![b"A", b"B"];
    let g = Gaddag::from_build(fst::Set::from_iter(sorted.clone())).unwrap();
    assert_eq!(g.contains("A"), Ok(true));
    let g = Gaddag::from_read(fst::Set::from_iter(sorted)).unwrap();
    assert_eq!(g.contains("B"), Ok(true));
}

#[test]
fn from_fst_takes_any_set_of_entries() {
    let keys: Vec<&[u8]> = vec![b"", b"A,B", b"AB", b"BA"];
    let g = Gaddag::from_fst(fst::Set::from_iter(keys).unwrap());
    assert_eq!(g.contains(""), Ok(true));
    assert_eq!(g.contains("AB"), Ok(true));
    assert_eq!(g.contains("BA"), Ok(true));
    assert_eq!(g.contains("A"), Ok(false));
    assert_eq!(g.starts_with("A"), Ok(words(&["AB"])));
    assert_eq!(g.ends_with("A"), Ok(words(&["BA"])));
    assert_eq!(g.substring("A"), Ok(words(&["AB", "BA"])));
    assert_eq!(g.substring(""), Ok(words(&["", "AB", "BA", "AB"])));
    assert_eq!(g.starts_with(""), Ok(words(&["", "BA", "AB"])));
}

#[test]
fn an_entry_that_is_not_text_makes_the_index_corrupt() {
    let keys: Vec<&[u8]> = vec![b"A", b"B\xff"];
    let g = Gaddag::from_fst(fst::Set::from_iter(keys).unwrap());
    assert_eq!(g.substring("A"), Ok(words(&["A"])));
    assert_eq!(g.ends_with("A"), Ok(words(&["A"])));
    assert_eq!(g.contains("B"), Ok(false));
    assert_eq!(g.substring("B"), Err(GaddagError::CorruptIndex));
    assert_eq!(g.ends_with("B"), Err(GaddagError::CorruptIndex));
    assert_eq!(g.substring(""), Err(GaddagError::CorruptIndex));
    assert_eq!(g.starts_with(""), Err(GaddagError::CorruptIndex));
    assert_eq!(g.starts_with("B"), Ok(Vec::new()));
}

fn generated(count: usize) -> Vec<String> {
    let mut out = Vec::new();
    let mut x: u32 = 2024;
    for _ in 0..count {
        x = x.wrapping_mul(1103515245).wrapping_add(12345);
        let n = 1 + ((x >> 16) % 8) as usize;
        let mut w = String::new();
        for _ in 0..n {
            x = x.wrapping_mul(1103515245).wrapping_add(12345);
            w.push((b'A' + ((x >> 16) % 5) as u8) as char);
        }
        out.push(w);
    }
    out
}

#[test]
fn a_larger_dictionary_answers_as_a_plain_search_does() {
    let list = generated(3000);
    let g = Gaddag::from_words(list.clone()).unwrap();
    for q in ["", "A", "E", "AB", "EA", "ABC", "DEAD", "BADE", "ACE", "CABBAGE", "EEEEEEEE"] {
        assert_eq!(g.contains(q), Ok(list.iter().any(|w| w == q)));
        let ends: Vec<String> = list.iter().filter(|w| w.ends_with(q)).cloned().collect();
        assert_eq!(as_set(g.ends_with(q).unwrap()), as_set(ends));
        let holds: Vec<String> = list.iter().filter(|w| w.contains(q)).cloned().collect();
        assert_eq!(as_set(g.substring(q).unwrap()), as_set(holds));
        let starts: Vec<String> = list
            .iter()
            .filter(|w| w.starts_with(q) && (q.is_empty() || w.len() > q.len()))
            .cloned()
            .collect();
        assert_eq!(as_set(g.starts_with(q).unwrap()), as_set(starts));
    }
}

#[test]
fn the_written_form_of_the_empty_index_gives_an_empty_index_back() {
    let g = Gaddag::from_words(Vec::new()).unwrap();
    let back = Gaddag::from_bytes(g.as_bytes().to_vec()).unwrap();
    assert_eq!(back.contains("A"), Ok(false));
    assert_eq!(back.substring(""), Ok(Vec::new()));
    assert_eq!(back.as_bytes(), g.as_bytes());
}
