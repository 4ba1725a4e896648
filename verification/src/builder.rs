//! From a word list to the sorted entry set that the automaton is built
//! from.

use vstd::prelude::*;
use vstd::seq_lib::seq_to_set_is_finite;
use crate::entry::{entry_at, entry_set, is_entry_of, is_valid_word, valid_word, word_entries};
use crate::error::GaddagError;
use crate::lex::ascending;
use crate::sorted::{lemma_to_set_of_join, rows, sort_dedup};
use crate::text::texts;

verus! {

/// Every word of the list is a word.
pub open spec fn all_valid(words: Seq<Seq<u8>>) -> bool {
    forall|i: int| 0 <= i < words.len() ==> valid_word(#[trigger] words[i])
}

/// `i` is the place of the first entry of the list that is no word.
pub open spec fn first_invalid(words: Seq<Seq<u8>>, i: int) -> bool {
    &&& 0 <= i < words.len()
    &&& !valid_word(words[i])
    &&& forall|j: int| 0 <= j < i ==> valid_word(#[trigger] words[j])
}

/// The entries of a list with one more word are the entries of the list and
/// those of the word.
pub proof fn lemma_entry_set_push(words: Seq<Seq<u8>>, w: Seq<u8>)
    ensures
        entry_set(words.push(w)) == entry_set(words).union(Set::new(|e: Seq<u8>| is_entry_of(e, w))),
{
    let more = words.push(w);
    let rhs = entry_set(words).union(Set::new(|e: Seq<u8>| is_entry_of(e, w)));
    assert forall|e: Seq<u8>| entry_set(more).contains(e) <==> rhs.contains(e) by {
        if entry_set(more).contains(e) {
            let i = choose|i: int| 0 <= i < more.len() && is_entry_of(e, #[trigger] more[i]);
            if i < words.len() {
                assert(is_entry_of(e, words[i]));
            }
        }
        if entry_set(words).contains(e) {
            let i = choose|i: int| 0 <= i < words.len() && is_entry_of(e, #[trigger] words[i]);
            assert(is_entry_of(e, more[i]));
        }
        if is_entry_of(e, w) {
            assert(is_entry_of(e, more[words.len() as int]));
        }
    }
    assert(entry_set(more) =~= rhs);
}

/// A word list has finitely many entries.
pub proof fn lemma_entry_set_finite(words: Seq<Seq<u8>>)
    ensures
        entry_set(words).finite(),
    decreases words.len(),
{
    if words.len() == 0 {
        assert(entry_set(words) =~= Set::<Seq<u8>>::empty());
    } else {
        let w = words.last();
        let of_w = Set::new(|e: Seq<u8>| is_entry_of(e, w));
        let listed = Seq::new(w.len(), |j: int| entry_at(w, j + 1));
        assert(of_w =~= listed.to_set()) by {
            assert forall|e: Seq<u8>| of_w.contains(e) <==> listed.contains(e) by {
                if is_entry_of(e, w) {
                    let k = choose|k: int| 1 <= k <= w.len() && e == #[trigger] entry_at(w, k);
                    assert(listed[k - 1] == e);
                }
                if listed.contains(e) {
                    let j = choose|j: int| 0 <= j < listed.len() && listed[j] == e;
                    assert(e == entry_at(w, j + 1));
                }
            }
        }
        seq_to_set_is_finite(listed);
        lemma_entry_set_finite(words.drop_last());
        lemma_entry_set_push(words.drop_last(), w);
        assert(words.drop_last().push(w) =~= words);
    }
}

/// The sorted entry set of a word list: every entry of every word, each
/// once, in ascending byte order. The first entry of the list that is no
/// word fails the whole build and is handed back in the error.
pub fn build_entries(words: Vec<String>) -> (r: Result<Vec<Vec<u8>>, GaddagError>)
    ensures
        match r {
            Ok(entries) => {
                &&& all_valid(texts(words@))
                &&& ascending(rows(entries@))
                &&& rows(entries@).to_set() == entry_set(texts(words@))
            },
            Err(GaddagError::InvalidWord(word)) => exists|i: int|
                #[trigger] first_invalid(texts(words@), i) && word@ == words@[i]@,
            Err(_) => false,
        },
{
    let ghost all_words = texts(words@);
    let mut found: Vec<Vec<u8>> = Vec::new();
    let mut i: usize = 0;
    assert(rows(found@).to_set() =~= entry_set(all_words.take(0)));
    while i < words.len()
        invariant
            i <= words.len(),
            all_words == texts(words@),
            all_valid(all_words.take(i as int)),
            rows(found@).to_set() == entry_set(all_words.take(i as int)),
        decreases words.len() - i,
    {
        let word = words[i].as_str().as_bytes();
        assert(word@ == all_words[i as int]);
        if !is_valid_word(word) {
            assert(first_invalid(all_words, i as int)) by {
                assert forall|j: int| 0 <= j < i implies valid_word(#[trigger] all_words[j]) by {
                    assert(all_words.take(i as int)[j] == all_words[j]);
                }
            }
            return Err(GaddagError::InvalidWord(words[i].clone()));
        }
        let mut entries = word_entries(word);
        let ghost before = rows(found@);
        let ghost fresh = rows(entries@);
        found.append(&mut entries);
        proof {
            assert(rows(found@) =~= before + fresh);
            lemma_to_set_of_join(before, fresh);
            lemma_entry_set_push(all_words.take(i as int), word@);
            assert(all_words.take(i + 1) =~= all_words.take(i as int).push(word@));
            assert(fresh.to_set() =~= Set::new(|e: Seq<u8>| is_entry_of(e, word@))) by {
                assert forall|e: Seq<u8>| fresh.contains(e) <==> is_entry_of(e, word@) by {
                    if fresh.contains(e) {
                        let j = choose|j: int| 0 <= j < fresh.len() && fresh[j] == e;
                        assert(e == entry_at(word@, word@.len() - j));
                    }
                    if is_entry_of(e, word@) {
                        let k = choose|k: int| 1 <= k <= word@.len() && e == #[trigger] entry_at(word@, k);
                        assert(fresh[word@.len() - k] == e);
                    }
                }
            }
            assert forall|j: int| 0 <= j < i + 1 implies valid_word(#[trigger] all_words.take(i + 1)[j]) by {
                if j < i {
                    assert(all_words.take(i as int)[j] == all_words[j]);
                }
            }
        }
        i += 1;
    }
    assert(all_words.take(i as int) =~= all_words);
    Ok(sort_dedup(&found))
}

} // verus!
