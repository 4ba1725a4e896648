//! What holds of every index built from a word list, and of every answer.

use vstd::prelude::*;
use crate::builder::{all_valid, lemma_entry_set_finite};
use crate::entry::{
    demangle, entry_at, entry_set, is_entry_of, is_letter, is_letters, law_demangle_inverts_entry,
    lemma_letters_hold_no_sep, lemma_sep_index, lemma_sep_index_bounds, sep_index, split_entry,
    valid_query, valid_word, SEP,
};
use crate::error::GaddagError;
use crate::query::{
    answer_of, contains_answer, is_answer, is_hit_list, lemma_answer_exists, lemma_answer_unique, selects,
    words_of, QueryKind,
};
use crate::text::is_ascii_bytes;

verus! {

/// `q` stands in `w` from the position `at` on.
pub open spec fn occurs_at(q: Seq<u8>, w: Seq<u8>, at: int) -> bool {
    0 <= at && at + q.len() <= w.len() && w.subrange(at, at + q.len()) == q
}

/// `q` stands somewhere in `w` as a run of neighbouring bytes.
pub open spec fn occurs_in(q: Seq<u8>, w: Seq<u8>) -> bool {
    exists|at: int| #[trigger] occurs_at(q, w, at)
}

/// Each entry of a word of the list is held by the index built from it.
pub proof fn lemma_entry_is_held(words: Seq<Seq<u8>>, w: Seq<u8>, k: int)
    requires
        words.contains(w),
        1 <= k <= w.len(),
    ensures
        entry_set(words).contains(entry_at(w, k)),
{
    let i = choose|i: int| 0 <= i < words.len() && words[i] == w;
    assert(is_entry_of(entry_at(w, k), words[i]));
}

/// Each entry that the index built from a list of words holds is an entry
/// of one of them, and demangles to it.
pub proof fn lemma_held_is_entry(words: Seq<Seq<u8>>, e: Seq<u8>)
    requires
        all_valid(words),
        entry_set(words).contains(e),
    ensures
        words.contains(demangle(e)),
        is_entry_of(e, demangle(e)),
{
    let i = choose|i: int| 0 <= i < words.len() && is_entry_of(e, #[trigger] words[i]);
    let w = words[i];
    let k = choose|k: int| 1 <= k <= w.len() && e == #[trigger] entry_at(w, k);
    lemma_letters_hold_no_sep(w);
    law_demangle_inverts_entry(w, k);
}

/// The entries of a word are all different: a word of `n` letters has `n`
/// entries.
pub proof fn law_entries_differ(w: Seq<u8>, j: int, k: int)
    requires
        valid_word(w),
        1 <= j < k <= w.len(),
    ensures
        entry_at(w, j) != entry_at(w, k),
{
    assert(entry_at(w, j)[j] == SEP);
    if k < w.len() {
        assert(entry_at(w, k)[j] == w[k - 1 - j]);
        assert(is_letter(w[k - 1 - j]));
    } else {
        assert(entry_at(w, k)[j] == w[w.len() - 1 - j]);
        assert(is_letter(w[w.len() - 1 - j]));
    }
}

/// An entry belongs to one word: two words that share an entry are the
/// same word.
pub proof fn law_entry_fixes_word(v: Seq<u8>, j: int, w: Seq<u8>, k: int)
    requires
        valid_word(v),
        valid_word(w),
        1 <= j <= v.len(),
        1 <= k <= w.len(),
        entry_at(v, j) == entry_at(w, k),
    ensures
        v == w,
{
    lemma_letters_hold_no_sep(v);
    lemma_letters_hold_no_sep(w);
    law_demangle_inverts_entry(v, j);
    law_demangle_inverts_entry(w, k);
}

/// An index built from words answers every query of letters with words,
/// never with `CorruptIndex`.
pub proof fn law_built_index_answers(
    words: Seq<Seq<u8>>,
    kind: QueryKind,
    q: Seq<u8>,
    r: Result<Seq<Seq<u8>>, GaddagError>,
)
    requires
        all_valid(words),
        valid_query(q),
        is_answer(r, entry_set(words), kind, q),
    ensures
        r is Ok,
{
    let hits = choose|hits: Seq<Seq<u8>>| #[trigger]
        is_hit_list(hits, entry_set(words), kind, q) && r == answer_of(hits);
    let found = words_of(hits);
    assert forall|i: int| 0 <= i < found.len() implies is_ascii_bytes(#[trigger] found[i]) by {
        assert(hits.contains(hits[i]));
        lemma_held_is_entry(words, hits[i]);
        let w = found[i];
        let j = choose|j: int| 0 <= j < words.len() && words[j] == w;
        assert(valid_word(words[j]));
        assert forall|p: int| 0 <= p < w.len() implies #[trigger] w[p] < 128 by {
            assert(is_letter(w[p]));
        }
    }
}

/// An index built from words has an answer to every query, and one only.
pub proof fn law_built_index_has_one_answer(words: Seq<Seq<u8>>, kind: QueryKind, q: Seq<u8>)
    ensures
        exists|r: Result<Seq<Seq<u8>>, GaddagError>| #[trigger] is_answer(r, entry_set(words), kind, q),
        forall|r1: Result<Seq<Seq<u8>>, GaddagError>, r2: Result<Seq<Seq<u8>>, GaddagError>|
            is_answer(r1, entry_set(words), kind, q) && is_answer(r2, entry_set(words), kind, q) ==> r1
                == r2,
{
    lemma_entry_set_finite(words);
    lemma_answer_exists(entry_set(words), kind, q);
    assert forall|r1: Result<Seq<Seq<u8>>, GaddagError>, r2: Result<Seq<Seq<u8>>, GaddagError>|
        is_answer(r1, entry_set(words), kind, q) && is_answer(r2, entry_set(words), kind, q) implies r1
        == r2 by {
        lemma_answer_unique(r1, r2, entry_set(words), kind, q);
    }
}

/// Where a query selects an entry of `w` that the index holds, the answer
/// holds `w`.
proof fn lemma_selected_is_found(
    words: Seq<Seq<u8>>,
    w: Seq<u8>,
    k: int,
    kind: QueryKind,
    q: Seq<u8>,
    r: Result<Seq<Seq<u8>>, GaddagError>,
)
    requires
        all_valid(words),
        words.contains(w),
        1 <= k <= w.len(),
        valid_query(q),
        selects(kind, q, entry_at(w, k)),
        is_answer(r, entry_set(words), kind, q),
    ensures
        r matches Ok(found) && found.contains(w),
{
    law_built_index_answers(words, kind, q, r);
    let hits = choose|hits: Seq<Seq<u8>>| #[trigger]
        is_hit_list(hits, entry_set(words), kind, q) && r == answer_of(hits);
    let e = entry_at(w, k);
    lemma_entry_is_held(words, w, k);
    assert(hits.contains(e));
    let i = choose|i: int| 0 <= i < hits.len() && hits[i] == e;
    let j = choose|j: int| 0 <= j < words.len() && words[j] == w;
    assert(valid_word(words[j]));
    lemma_letters_hold_no_sep(w);
    law_demangle_inverts_entry(w, k);
    assert(words_of(hits)[i] == w);
}

/// A part of a run of letters is a run of letters.
proof fn lemma_part_is_letters(w: Seq<u8>, i: int, j: int)
    requires
        is_letters(w),
        0 <= i <= j <= w.len(),
    ensures
        is_letters(w.subrange(i, j)),
{
    let part = w.subrange(i, j);
    assert forall|p: int| 0 <= p < part.len() implies is_letter(#[trigger] part[p]) by {
        assert(is_letter(w[i + p]));
    }
}

/// Every word that went into an index is found in it by `contains`.
pub proof fn law_contains_inserted(words: Seq<Seq<u8>>, w: Seq<u8>)
    requires
        all_valid(words),
        words.contains(w),
    ensures
        contains_answer(entry_set(words), w) == Ok::<bool, GaddagError>(true),
{
    let j = choose|j: int| 0 <= j < words.len() && words[j] == w;
    assert(valid_word(words[j]));
    lemma_entry_is_held(words, w, w.len() as int);
}

/// No run of letters that did not go into an index is found in it by
/// `contains`.
pub proof fn law_contains_only_inserted(words: Seq<Seq<u8>>, w: Seq<u8>)
    requires
        valid_query(w),
        !words.contains(w),
    ensures
        contains_answer(entry_set(words), w) == Ok::<bool, GaddagError>(false),
{
    let e = w.reverse();
    if entry_set(words).contains(e) {
        let i = choose|i: int| 0 <= i < words.len() && is_entry_of(e, #[trigger] words[i]);
        let v = words[i];
        let k = choose|k: int| 1 <= k <= v.len() && e == #[trigger] entry_at(v, k);
        if k == v.len() {
            assert(v.reverse().reverse() =~= v);
            assert(w.reverse().reverse() =~= w);
            assert(v == w);
        } else {
            let made = split_entry(v, k);
            assert(made.len() == v.len() + 1);
            assert(made[k] == SEP);
            assert(w.reverse().len() == w.len());
            assert(w.reverse()[k] == w[w.len() - 1 - k]);
            assert(is_letter(w[w.len() - 1 - k]));
        }
    }
}

/// For every word `w` of an index and every `k` below its length,
/// `starts_with` of the first `k` letters of `w` finds `w`.
pub proof fn law_starts_with_finds(
    words: Seq<Seq<u8>>,
    w: Seq<u8>,
    k: int,
    r: Result<Seq<Seq<u8>>, GaddagError>,
)
    requires
        all_valid(words),
        words.contains(w),
        0 <= k < w.len(),
        is_answer(r, entry_set(words), QueryKind::StartsWith, w.subrange(0, k)),
    ensures
        r matches Ok(found) && found.contains(w),
{
    let j = choose|j: int| 0 <= j < words.len() && words[j] == w;
    assert(valid_word(words[j]));
    let q = w.subrange(0, k);
    lemma_part_is_letters(w, 0, k);
    if k == 0 {
        let e = entry_at(w, w.len() as int);
        if e.contains(SEP) {
            let p = choose|p: int| 0 <= p < e.len() && e[p] == SEP;
            assert(is_letter(w[w.len() - 1 - p]));
        }
        lemma_selected_is_found(words, w, w.len() as int, QueryKind::StartsWith, q, r);
    } else {
        let e = entry_at(w, k);
        assert(e.subrange(0, k + 1) =~= q.reverse().push(SEP));
        lemma_selected_is_found(words, w, k, QueryKind::StartsWith, q, r);
    }
}

/// For every word `w` of an index and every `k` up to its length,
/// `ends_with` of `w` without its first `k` letters finds `w`.
pub proof fn law_ends_with_finds(
    words: Seq<Seq<u8>>,
    w: Seq<u8>,
    k: int,
    r: Result<Seq<Seq<u8>>, GaddagError>,
)
    requires
        all_valid(words),
        words.contains(w),
        0 <= k <= w.len(),
        is_answer(r, entry_set(words), QueryKind::EndsWith, w.subrange(k, w.len() as int)),
    ensures
        r matches Ok(found) && found.contains(w),
{
    let j = choose|j: int| 0 <= j < words.len() && words[j] == w;
    assert(valid_word(words[j]));
    let n = w.len() as int;
    let q = w.subrange(k, n);
    lemma_part_is_letters(w, k, n);
    let e = entry_at(w, n);
    if e.contains(SEP) {
        let p = choose|p: int| 0 <= p < e.len() && e[p] == SEP;
        assert(is_letter(w[n - 1 - p]));
    }
    assert(e.subrange(0, n - k) =~= q.reverse());
    lemma_selected_is_found(words, w, n, QueryKind::EndsWith, q, r);
}

/// For every word `w` of an index and every part of `w`, `substring` of
/// that part finds `w`.
pub proof fn law_substring_finds(
    words: Seq<Seq<u8>>,
    w: Seq<u8>,
    i: int,
    j: int,
    r: Result<Seq<Seq<u8>>, GaddagError>,
)
    requires
        all_valid(words),
        words.contains(w),
        0 <= i <= j <= w.len(),
        is_answer(r, entry_set(words), QueryKind::Substring, w.subrange(i, j)),
    ensures
        r matches Ok(found) && found.contains(w),
{
    let p = choose|p: int| 0 <= p < words.len() && words[p] == w;
    assert(valid_word(words[p]));
    let q = w.subrange(i, j);
    lemma_part_is_letters(w, i, j);
    let k = if j == 0 { w.len() as int } else { j };
    let e = entry_at(w, k);
    assert(e.subrange(0, j - i) =~= q.reverse());
    lemma_selected_is_found(words, w, k, QueryKind::Substring, q, r);
}

/// Whatever an index holds, every word that `ends_with` hands back ends
/// with the query.
pub proof fn law_ends_with_exact(
    keys: Set<Seq<u8>>,
    q: Seq<u8>,
    r: Result<Seq<Seq<u8>>, GaddagError>,
    i: int,
)
    requires
        is_answer(r, keys, QueryKind::EndsWith, q),
        r matches Ok(found) && 0 <= i < found.len(),
    ensures
        r matches Ok(found) && q.is_suffix_of(found[i]),
{
    let hits = choose|hits: Seq<Seq<u8>>| #[trigger]
        is_hit_list(hits, keys, QueryKind::EndsWith, q) && r == answer_of(hits);
    let e = hits[i];
    assert(hits.contains(e));
    lemma_sep_index_bounds(e);
    let word = e.reverse();
    assert(words_of(hits)[i] == word);
    assert(q =~= word.subrange(word.len() - q.len(), word.len() as int)) by {
        assert(q.reverse() =~= e.subrange(0, q.len() as int));
        assert forall|p: int| 0 <= p < q.len() implies q[p] == word[word.len() - q.len() + p] by {
            assert(q.reverse()[q.len() - 1 - p] == q[p]);
        }
    }
}

/// Whatever an index holds, every word that `starts_with` hands back
/// starts with the query.
pub proof fn law_starts_with_exact(
    keys: Set<Seq<u8>>,
    q: Seq<u8>,
    r: Result<Seq<Seq<u8>>, GaddagError>,
    i: int,
)
    requires
        is_answer(r, keys, QueryKind::StartsWith, q),
        r matches Ok(found) && 0 <= i < found.len(),
    ensures
        r matches Ok(found) && q.is_prefix_of(found[i]),
{
    let hits = choose|hits: Seq<Seq<u8>>| #[trigger]
        is_hit_list(hits, keys, QueryKind::StartsWith, q) && r == answer_of(hits);
    let e = hits[i];
    assert(hits.contains(e));
    let n = q.len() as int;
    if n > 0 {
        let p = q.reverse().push(SEP);
        assert(p =~= e.subrange(0, n + 1));
        assert forall|j: int| 0 <= j < n implies e[j] != SEP by {
            assert(e[j] == p[j]);
            assert(is_letter(q[n - 1 - j]));
        }
        assert(e[n] == p[n]);
        lemma_sep_index(e, n);
        assert(e.subrange(0, n).reverse() =~= q) by {
            assert forall|j: int| 0 <= j < n implies e.subrange(0, n).reverse()[j] == q[j] by {
                assert(e[n - 1 - j] == p[n - 1 - j]);
            }
        }
        assert(words_of(hits)[i].subrange(0, n) =~= q);
    } else {
        assert(words_of(hits)[i].subrange(0, 0) =~= q);
    }
}

/// Whatever an index holds, every word that `substring` hands back holds
/// the query as a run of neighbouring letters.
pub proof fn law_substring_exact(
    keys: Set<Seq<u8>>,
    q: Seq<u8>,
    r: Result<Seq<Seq<u8>>, GaddagError>,
    i: int,
)
    requires
        is_answer(r, keys, QueryKind::Substring, q),
        r matches Ok(found) && 0 <= i < found.len(),
    ensures
        r matches Ok(found) && occurs_in(q, found[i]),
{
    let hits = choose|hits: Seq<Seq<u8>>| #[trigger]
        is_hit_list(hits, keys, QueryKind::Substring, q) && r == answer_of(hits);
    let e = hits[i];
    assert(hits.contains(e));
    let n = q.len() as int;
    let idx = sep_index(e);
    lemma_sep_index_bounds(e);
    assert(q.reverse() =~= e.subrange(0, n));
    if idx < n {
        assert(e[idx] == q.reverse()[idx]);
        assert(is_letter(q[n - 1 - idx]));
    }
    let word = words_of(hits)[i];
    let head = e.subrange(0, idx);
    assert(word.subrange(idx - n, idx) =~= q) by {
        assert forall|t: int| 0 <= t < n implies word[idx - n + t] == q[t] by {
            assert(head.reverse()[idx - n + t] == head[n - 1 - t]);
            assert(e[n - 1 - t] == q.reverse()[n - 1 - t]);
        }
    }
    assert(occurs_at(q, word, idx - n));
}

/// Every word that an index built from a word list hands back is a word of
/// the list.
pub proof fn law_answers_are_words(
    words: Seq<Seq<u8>>,
    kind: QueryKind,
    q: Seq<u8>,
    r: Result<Seq<Seq<u8>>, GaddagError>,
    i: int,
)
    requires
        all_valid(words),
        is_answer(r, entry_set(words), kind, q),
        r matches Ok(found) && 0 <= i < found.len(),
    ensures
        r matches Ok(found) && words.contains(found[i]),
{
    let hits = choose|hits: Seq<Seq<u8>>| #[trigger]
        is_hit_list(hits, entry_set(words), kind, q) && r == answer_of(hits);
    assert(hits.contains(hits[i]));
    lemma_held_is_entry(words, hits[i]);
    assert(words_of(hits)[i] == demangle(hits[i]));
}

/// Two word lists that hold the same words, in whatever order and however
/// often, give the same entries.
pub proof fn law_rebuild_same_entries(first: Seq<Seq<u8>>, second: Seq<Seq<u8>>)
    requires
        forall|w: Seq<u8>| first.contains(w) <==> second.contains(w),
    ensures
        entry_set(first) == entry_set(second),
{
    assert forall|e: Seq<u8>| entry_set(first).contains(e) <==> entry_set(second).contains(e) by {
        if entry_set(first).contains(e) {
            let i = choose|i: int| 0 <= i < first.len() && is_entry_of(e, #[trigger] first[i]);
            assert(first.contains(first[i]));
            let j = choose|j: int| 0 <= j < second.len() && second[j] == first[i];
            assert(is_entry_of(e, second[j]));
        }
        if entry_set(second).contains(e) {
            let i = choose|i: int| 0 <= i < second.len() && is_entry_of(e, #[trigger] second[i]);
            assert(second.contains(second[i]));
            let j = choose|j: int| 0 <= j < first.len() && first[j] == second[i];
            assert(is_entry_of(e, first[j]));
        }
    }
    assert(entry_set(first) =~= entry_set(second));
}

/// Two indexes built from the same words, in whatever order, give the same
/// answer to every query.
pub proof fn law_rebuild_same_answers(
    first: Seq<Seq<u8>>,
    second: Seq<Seq<u8>>,
    kind: QueryKind,
    q: Seq<u8>,
    r1: Result<Seq<Seq<u8>>, GaddagError>,
    r2: Result<Seq<Seq<u8>>, GaddagError>,
)
    requires
        forall|w: Seq<u8>| first.contains(w) <==> second.contains(w),
        is_answer(r1, entry_set(first), kind, q),
        is_answer(r2, entry_set(second), kind, q),
    ensures
        r1 == r2,
        contains_answer(entry_set(first), q) == contains_answer(entry_set(second), q),
{
    law_rebuild_same_entries(first, second);
    lemma_answer_unique(r1, r2, entry_set(first), kind, q);
}

/// The index of the empty dictionary holds nothing: it answers every query
/// of letters with no words, and `contains` with `false`.
pub proof fn law_empty_dictionary(kind: QueryKind, q: Seq<u8>, r: Result<Seq<Seq<u8>>, GaddagError>)
    requires
        valid_query(q),
        is_answer(r, entry_set(Seq::<Seq<u8>>::empty()), kind, q),
    ensures
        r == Ok::<Seq<Seq<u8>>, GaddagError>(Seq::<Seq<u8>>::empty()),
        contains_answer(entry_set(Seq::<Seq<u8>>::empty()), q) == Ok::<bool, GaddagError>(false),
{
    let keys = entry_set(Seq::<Seq<u8>>::empty());
    let hits = choose|hits: Seq<Seq<u8>>| #[trigger] is_hit_list(hits, keys, kind, q) && r == answer_of(hits);
    if hits.len() > 0 {
        assert(hits.contains(hits[0]));
    }
    assert(words_of(hits) =~= Seq::<Seq<u8>>::empty());
}

} // verus!
