use fst_gaddag::gaddag::demangle_all;
use fst_gaddag::{CompiledAddr, Gaddag, GaddagError};

fn words(list: &[&str]) -> Vec<String> {
    list.iter().map(|w| w.to_string()).collect()
}

fn sample() -> Gaddag {
    Gaddag::from_words(words(&["CARES", "CARESS", "SERUM"])).unwrap()
}

fn follow(g: &Gaddag, path: &str) -> Option<CompiledAddr> {
    let mut at = g.node_for_prefix("")?;
    for c in path.chars() {
        at = g.can_next(at, c)?;
    }
    Some(at)
}

#[test]
fn node_for_prefix_walks_whatever_an_entry_begins_with() {
    let g = sample();
    for path in ["", "S", "SERAC", "SERAC,", "SERAC,S", "AC,RES", "AC,RESS", "C,", "MURES", "S,ERUM"] {
        assert!(g.node_for_prefix(path).is_some());
    }
}

#[test]
fn node_for_prefix_fails_where_no_entry_goes_on() {
    let g = sample();
    for path in ["X", "CARES", "SERACS", "AC,RESSS", ",", "S,,", "s", "É"] {
        assert_eq!(g.node_for_prefix(path), None);
    }
}

#[test]
fn node_for_prefix_does_not_reverse_its_input() {
    let g = Gaddag::from_words(words(&["AB"])).unwrap();
    assert!(g.node_for_prefix("BA").is_some());
    assert!(g.node_for_prefix("A,B").is_some());
    assert_eq!(g.node_for_prefix("AB"), None);
}

#[test]
fn stepping_char_by_char_reaches_the_node_of_the_prefix() {
    let g = sample();
    for path in ["", "S", "SE", "SERAC", "SERAC,", "SERAC,S", "AC,RES", "C,ARESS", "MURES"] {
        let walked = follow(&g, path);
        assert!(walked.is_some());
        assert_eq!(walked, g.node_for_prefix(path));
    }
    for path in ["X", "SX", "SERACS", "AC,RESSS"] {
        assert_eq!(follow(&g, path), None);
    }
}

#[test]
fn the_separator_is_crossed_like_any_other_byte() {
    let g = sample();
    let before = g.node_for_prefix("AC").unwrap();
    let after = g.can_next(before, ',').unwrap();
    assert_eq!(Some(after), g.node_for_prefix("AC,"));
    assert_eq!(g.step(before, b','), Some(after));
    assert_eq!(g.can_next(after, 'R'), g.node_for_prefix("AC,R"));
    assert_eq!(g.can_next(after, ','), None);
    assert_eq!(g.can_next(after, 'Z'), None);
}

#[test]
fn step_and_can_next_agree_on_ascii() {
    let g = sample();
    let root = g.node_for_prefix("").unwrap();
    for byte in 0u8..128 {
        assert_eq!(g.step(root, byte), g.can_next(root, byte as char));
    }
    assert_eq!(g.step(root, b'S'), g.node_for_prefix("S"));
    assert_eq!(g.step(root, b'B'), None);
}

#[test]
fn can_next_has_no_step_for_a_char_beyond_ascii() {
    let keys: Vec<&[u8]> = vec![b"A", b"\xc9"];
    let g = Gaddag::from_fst(fst::Set::from_iter(keys).unwrap());
    let root = g.node_for_prefix("").unwrap();
    assert!(g.step(root, 0xc9).is_some());
    assert_eq!(g.can_next(root, '\u{c9}'), None);
    assert_eq!(g.can_next(root, '\u{1c9}'), None);
    assert!(g.can_next(root, 'A').is_some());
}

#[test]
fn the_empty_index_has_a_root_and_no_steps() {
    let g = Gaddag::from_words(Vec::new()).unwrap();
    let root = g.node_for_prefix("").unwrap();
    assert_eq!(g.can_next(root, 'A'), None);
    assert_eq!(g.step(root, b','), None);
    assert_eq!(g.node_for_prefix("A"), None);
}

#[test]
fn states_with_the_same_rest_are_shared() {
    let g = sample();
    assert_eq!(g.node_for_prefix("SERAC"), g.node_for_prefix("SERAC"));
    assert_eq!(g.node_for_prefix("AC,RES"), g.node_for_prefix("RAC,ES"));
}

#[test]
fn demangle_all_turns_entries_into_words() {
    let hits: Vec<Vec<u8>> = vec![b"AC,RES".to_vec(), b"SERAC".to_vec(), b"S,ERUM".to_vec()];
    assert_eq!(demangle_all(&hits), Ok(words(&["CARES", "CARES", "SERUM"])));
    assert_eq!(demangle_all(&Vec::new()), Ok(Vec::new()));
    let bad: Vec<Vec<u8>> = vec![b"SERAC".to_vec(), vec![0x80]];
    assert_eq!(demangle_all(&bad), Err(GaddagError::CorruptIndex));
}
