//! Directional entries: the byte strings that stand for a word in the index,
//! and the way back from an entry to its word.
//!
//! A word of `n` letters has `n` entries. The whole entry is the word
//! reversed. The split entry at `k` (`1 <= k < n`) is the first `k` letters
//! reversed, the separator, and the remaining letters in their own order.

use vstd::prelude::*;

verus! {

/// The byte that parts the reversed head of a split entry from its tail. It
/// is no letter, so it never occurs in a word.
pub const SEP: u8 = 44;

/// The separator as text.
pub const SEP_STR: &'static str = ",";

/// The greatest number of letters in a word.
pub const MAX_WORD_LENGTH: usize = 15;

/// The alphabet: the upper-case letters `A` to `Z`.
pub open spec fn is_letter(b: u8) -> bool {
    65 <= b <= 90
}

/// Every byte of `s` is a letter.
pub open spec fn is_letters(s: Seq<u8>) -> bool {
    forall|i: int| 0 <= i < s.len() ==> is_letter(#[trigger] s[i])
}

/// A word is one to fifteen letters.
pub open spec fn valid_word(w: Seq<u8>) -> bool {
    1 <= w.len() <= MAX_WORD_LENGTH && is_letters(w)
}

/// A query is any run of letters; the empty query is one.
pub open spec fn valid_query(q: Seq<u8>) -> bool {
    is_letters(q)
}

/// The entry that holds no separator: the word reversed.
pub open spec fn whole_entry(w: Seq<u8>) -> Seq<u8> {
    w.reverse()
}

/// The entry for the split point `k`.
pub open spec fn split_entry(w: Seq<u8>, k: int) -> Seq<u8> {
    w.subrange(0, k).reverse().push(SEP) + w.subrange(k, w.len() as int)
}

/// The `k`-th entry of `w`, for `1 <= k <= w.len()`: a split entry below the
/// word's length, the whole entry at it.
pub open spec fn entry_at(w: Seq<u8>, k: int) -> Seq<u8> {
    if k == w.len() {
        whole_entry(w)
    } else {
        split_entry(w, k)
    }
}

/// `e` is one of the entries of `w`.
pub open spec fn is_entry_of(e: Seq<u8>, w: Seq<u8>) -> bool {
    exists|k: int| 1 <= k <= w.len() && e == #[trigger] entry_at(w, k)
}

/// All entries of all the words: what an index built from `words` holds.
pub open spec fn entry_set(words: Seq<Seq<u8>>) -> Set<Seq<u8>> {
    Set::new(|e: Seq<u8>| exists|i: int| 0 <= i < words.len() && is_entry_of(e, #[trigger] words[i]))
}

/// Where the first separator of `e` stands, or the length of `e` where it
/// holds none.
pub open spec fn sep_index(e: Seq<u8>) -> int
    decreases e.len(),
{
    if e.len() == 0 || e[0] == SEP {
        0
    } else {
        1 + sep_index(e.drop_first())
    }
}

/// The word that `e` is an entry of: with a separator, the part before it
/// reversed and then the part after it; without one, `e` reversed.
pub open spec fn demangle(e: Seq<u8>) -> Seq<u8> {
    let idx = sep_index(e);
    if idx < e.len() {
        e.subrange(0, idx).reverse() + e.subrange(idx + 1, e.len() as int)
    } else {
        e.reverse()
    }
}

/// `sep_index` is the one position with a separator, or the end, before
/// which no separator stands.
pub proof fn lemma_sep_index(e: Seq<u8>, i: int)
    requires
        0 <= i <= e.len(),
        forall|j: int| 0 <= j < i ==> e[j] != SEP,
        i == e.len() || e[i] == SEP,
    ensures
        sep_index(e) == i,
    decreases i,
{
    if i > 0 {
        let rest = e.drop_first();
        assert forall|j: int| 0 <= j < i - 1 implies rest[j] != SEP by {
            assert(rest[j] == e[j + 1]);
        }
        lemma_sep_index(rest, i - 1);
    }
}

/// `sep_index` lies within `e`, no separator stands before it, and it is
/// the end of `e` exactly when `e` holds no separator.
pub proof fn lemma_sep_index_bounds(e: Seq<u8>)
    ensures
        0 <= sep_index(e) <= e.len(),
        forall|j: int| 0 <= j < sep_index(e) ==> e[j] != SEP,
        sep_index(e) < e.len() ==> e[sep_index(e)] == SEP,
        sep_index(e) == e.len() <==> !e.contains(SEP),
    decreases e.len(),
{
    if e.len() == 0 || e[0] == SEP {
    } else {
        let rest = e.drop_first();
        lemma_sep_index_bounds(rest);
        assert forall|j: int| 0 <= j < sep_index(e) implies e[j] != SEP by {
            if j > 0 {
                assert(rest[j - 1] == e[j]);
            }
        }
        if sep_index(e) < e.len() {
            assert(rest[sep_index(rest)] == e[sep_index(e)]);
        }
    }
}

/// Demangling is the inverse of entry generation: each entry of a word that
/// holds no separator demangles to that word.
pub proof fn law_demangle_inverts_entry(w: Seq<u8>, k: int)
    requires
        !w.contains(SEP),
        1 <= k <= w.len(),
    ensures
        demangle(entry_at(w, k)) == w,
{
    let e = entry_at(w, k);
    if k == w.len() {
        assert forall|j: int| 0 <= j < e.len() implies e[j] != SEP by {
            assert(e[j] == w[w.len() - 1 - j]);
            assert(w.contains(w[w.len() - 1 - j]));
        }
        lemma_sep_index(e, e.len() as int);
        assert(e.reverse() =~= w);
    } else {
        let head = w.subrange(0, k);
        assert forall|j: int| 0 <= j < k implies e[j] != SEP by {
            assert(e[j] == head.reverse()[j]);
            assert(e[j] == w[k - 1 - j]);
            assert(w.contains(w[k - 1 - j]));
        }
        assert(e[k] == SEP);
        lemma_sep_index(e, k);
        assert(e.subrange(0, k) =~= head.reverse());
        assert(head.reverse().reverse() =~= head);
        assert(e.subrange(k + 1, e.len() as int) =~= w.subrange(k, w.len() as int));
        assert(head + w.subrange(k, w.len() as int) =~= w);
    }
}

/// A run of letters holds no separator.
pub proof fn lemma_letters_hold_no_sep(s: Seq<u8>)
    requires
        is_letters(s),
    ensures
        !s.contains(SEP),
{
    if s.contains(SEP) {
        let i = choose|i: int| 0 <= i < s.len() && s[i] == SEP;
        assert(is_letter(s[i]));
    }
}

/// Whether every byte of `s` is a letter.
pub fn all_letters(s: &[u8]) -> (r: bool)
    ensures
        r == is_letters(s@),
{
    let mut i: usize = 0;
    while i < s.len()
        invariant
            i <= s.len(),
            forall|j: int| 0 <= j < i ==> is_letter(#[trigger] s@[j]),
        decreases s.len() - i,
    {
        let b: u8 = s[i];
        if b < 65 || b > 90 {
            assert(!is_letter(s@[i as int]));
            return false;
        }
        i += 1;
    }
    true
}

/// Whether `w` is a word.
pub fn is_valid_word(w: &[u8]) -> (r: bool)
    ensures
        r == valid_word(w@),
{
    1 <= w.len() && w.len() <= MAX_WORD_LENGTH && all_letters(w)
}

/// Puts the bytes of `src` from `from` up to `to` at the end of `dst`.
pub fn push_all(dst: &mut Vec<u8>, src: &[u8], from: usize, to: usize)
    requires
        from <= to <= src@.len(),
    ensures
        final(dst)@ == old(dst)@ + src@.subrange(from as int, to as int),
{
    let mut i: usize = from;
    assert(dst@ =~= old(dst)@ + src@.subrange(from as int, i as int));
    while i < to
        invariant
            from <= i <= to <= src@.len(),
            dst@ == old(dst)@ + src@.subrange(from as int, i as int),
        decreases to - i,
    {
        dst.push(src[i]);
        i += 1;
        assert(dst@ =~= old(dst)@ + src@.subrange(from as int, i as int));
    }
}

/// Puts the bytes of `src` from `from` up to `to` at the end of `dst`, the
/// last of them first.
pub fn push_reversed(dst: &mut Vec<u8>, src: &[u8], from: usize, to: usize)
    requires
        from <= to <= src@.len(),
    ensures
        final(dst)@ == old(dst)@ + src@.subrange(from as int, to as int).reverse(),
{
    let ghost part = src@.subrange(from as int, to as int);
    let mut i: usize = to;
    assert(dst@ =~= old(dst)@ + part.reverse().subrange(0, to - i));
    while i > from
        invariant
            from <= i <= to <= src@.len(),
            part == src@.subrange(from as int, to as int),
            dst@ == old(dst)@ + part.reverse().subrange(0, to - i),
        decreases i,
    {
        i -= 1;
        dst.push(src[i]);
        assert(dst@ =~= old(dst)@ + part.reverse().subrange(0, to - i));
    }
    assert(part.reverse().subrange(0, to - from) =~= part.reverse());
}

/// The bytes of `s` in reverse order.
pub fn reversed(s: &[u8]) -> (out: Vec<u8>)
    ensures
        out@ == s@.reverse(),
{
    let mut out: Vec<u8> = Vec::new();
    push_reversed(&mut out, s, 0, s.len());
    assert(s@.subrange(0, s@.len() as int) =~= s@);
    assert(out@ =~= s@.reverse());
    out
}

/// The `k`-th entry of `word`.
pub fn make_entry(word: &[u8], k: usize) -> (entry: Vec<u8>)
    requires
        1 <= k <= word@.len(),
    ensures
        entry@ == entry_at(word@, k as int),
{
    let n: usize = word.len();
    let mut entry: Vec<u8> = Vec::new();
    push_reversed(&mut entry, word, 0, k);
    if k < n {
        entry.push(SEP);
        push_all(&mut entry, word, k, n);
        assert(entry@ =~= split_entry(word@, k as int));
    } else {
        assert(word@.subrange(0, k as int) =~= word@);
        assert(entry@ =~= whole_entry(word@));
    }
    entry
}

/// The entries of `word`: first the whole entry, then the split entries
/// from the last split point down to the first.
pub fn word_entries(word: &[u8]) -> (entries: Vec<Vec<u8>>)
    ensures
        entries@.len() == word@.len(),
        forall|j: int| 0 <= j < entries@.len() ==> (#[trigger] entries@[j])@ == entry_at(word@, word@.len() - j),
{
    let n: usize = word.len();
    let mut entries: Vec<Vec<u8>> = Vec::new();
    let mut k: usize = n;
    while k > 0
        invariant
            k <= n,
            n == word@.len(),
            entries@.len() == n - k,
            forall|j: int| 0 <= j < entries@.len() ==> (#[trigger] entries@[j])@ == entry_at(word@, n - j),
        decreases k,
    {
        let entry = make_entry(word, k);
        entries.push(entry);
        k -= 1;
    }
    entries
}

/// Turns an entry back into its word.
pub fn demangle_item(item: &[u8]) -> (word: Vec<u8>)
    ensures
        word@ == demangle(item@),
{
    let n: usize = item.len();
    let mut idx: usize = 0;
    while idx < n && item[idx] != SEP
        invariant
            idx <= n,
            n == item@.len(),
            forall|j: int| 0 <= j < idx ==> item@[j] != SEP,
        decreases n - idx,
    {
        idx += 1;
    }
    proof {
        lemma_sep_index(item@, idx as int);
    }
    let mut word: Vec<u8> = Vec::new();
    push_reversed(&mut word, item, 0, idx);
    if idx < n {
        push_all(&mut word, item, idx + 1, n);
        assert(word@ =~= demangle(item@));
    } else {
        assert(item@.subrange(0, idx as int) =~= item@);
        assert(word@ =~= demangle(item@));
    }
    word
}

} // verus!
