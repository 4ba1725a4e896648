//! What the queries mean: which entries a query selects, and what is handed
//! back for the entries found.

use vstd::prelude::*;
use crate::entry::{demangle, valid_query, SEP};
use crate::error::GaddagError;
use crate::lex::{ascending, lemma_ascending_list_exists, lemma_ascending_unique, lists};
use crate::text::{is_ascii_bytes, texts};

verus! {

/// The three queries that hand back words.
pub enum QueryKind {
    StartsWith,
    EndsWith,
    Substring,
}

/// Whether the query `q` of the given kind selects the entry `key`.
///
/// A prefix selects the split entries that begin with it reversed and the
/// separator: the words that go on after it. The empty prefix selects the
/// whole entries, one for each word. A suffix selects the whole entries that
/// begin with it reversed. A needle selects every entry that begins with it
/// reversed.
pub open spec fn selects(kind: QueryKind, q: Seq<u8>, key: Seq<u8>) -> bool {
    match kind {
        QueryKind::StartsWith => if q.len() == 0 {
            !key.contains(SEP)
        } else {
            q.reverse().push(SEP).is_prefix_of(key)
        },
        QueryKind::EndsWith => q.reverse().is_prefix_of(key) && !key.contains(SEP),
        QueryKind::Substring => q.reverse().is_prefix_of(key),
    }
}

/// `hits` are the entries among `keys` that the query selects, in ascending
/// byte order.
pub open spec fn is_hit_list(hits: Seq<Seq<u8>>, keys: Set<Seq<u8>>, kind: QueryKind, q: Seq<u8>) -> bool {
    &&& ascending(hits)
    &&& forall|k: Seq<u8>| hits.contains(k) <==> keys.contains(k) && selects(kind, q, k)
}

/// The word of each entry found, in the order of the entries.
pub open spec fn words_of(hits: Seq<Seq<u8>>) -> Seq<Seq<u8>> {
    Seq::new(hits.len(), |i: int| demangle(hits[i]))
}

/// Every row is ASCII, so that it can be handed out as text.
pub open spec fn all_text(list: Seq<Seq<u8>>) -> bool {
    forall|i: int| 0 <= i < list.len() ==> is_ascii_bytes(#[trigger] list[i])
}

/// What is handed back for the entries found: their words, or
/// `CorruptIndex` where one of the words is not text.
pub open spec fn answer_of(hits: Seq<Seq<u8>>) -> Result<Seq<Seq<u8>>, GaddagError> {
    if all_text(words_of(hits)) {
        Ok(words_of(hits))
    } else {
        Err(GaddagError::CorruptIndex)
    }
}

/// `r` is the answer of an index that holds `keys` to the query `q`:
/// `InvalidQuery` where `q` holds a byte that is no letter, else the answer
/// for the entries that `q` selects.
pub open spec fn is_answer(
    r: Result<Seq<Seq<u8>>, GaddagError>,
    keys: Set<Seq<u8>>,
    kind: QueryKind,
    q: Seq<u8>,
) -> bool {
    if valid_query(q) {
        exists|hits: Seq<Seq<u8>>| #[trigger] is_hit_list(hits, keys, kind, q) && r == answer_of(hits)
    } else {
        r == Err::<Seq<Seq<u8>>, GaddagError>(GaddagError::InvalidQuery)
    }
}

/// The answer of an index that holds `keys` to "is `q` a word": whether the
/// whole entry of `q` is among the keys.
pub open spec fn contains_answer(keys: Set<Seq<u8>>, q: Seq<u8>) -> Result<bool, GaddagError> {
    if valid_query(q) {
        Ok(keys.contains(q.reverse()))
    } else {
        Err(GaddagError::InvalidQuery)
    }
}

/// A result of texts, taken as a result of byte strings.
pub open spec fn given(r: Result<Vec<String>, GaddagError>) -> Result<Seq<Seq<u8>>, GaddagError> {
    match r {
        Ok(list) => Ok(texts(list@)),
        Err(e) => Err(e),
    }
}

/// The same query on the same entries has one answer.
pub proof fn lemma_answer_unique(
    r1: Result<Seq<Seq<u8>>, GaddagError>,
    r2: Result<Seq<Seq<u8>>, GaddagError>,
    keys: Set<Seq<u8>>,
    kind: QueryKind,
    q: Seq<u8>,
)
    requires
        is_answer(r1, keys, kind, q),
        is_answer(r2, keys, kind, q),
    ensures
        r1 == r2,
{
    if valid_query(q) {
        let h1 = choose|hits: Seq<Seq<u8>>| #[trigger] is_hit_list(hits, keys, kind, q) && r1 == answer_of(hits);
        let h2 = choose|hits: Seq<Seq<u8>>| #[trigger] is_hit_list(hits, keys, kind, q) && r2 == answer_of(hits);
        lemma_ascending_unique(h1, h2);
    }
}

/// Every query on a finite set of entries has an answer.
pub proof fn lemma_answer_exists(keys: Set<Seq<u8>>, kind: QueryKind, q: Seq<u8>)
    requires
        keys.finite(),
    ensures
        exists|r: Result<Seq<Seq<u8>>, GaddagError>| #[trigger] is_answer(r, keys, kind, q),
{
    if valid_query(q) {
        let chosen = keys.filter(|k: Seq<u8>| selects(kind, q, k));
        lemma_ascending_list_exists(chosen);
        let hits = choose|l: Seq<Seq<u8>>| #[trigger] lists(l, chosen);
        assert(is_hit_list(hits, keys, kind, q));
        assert(is_answer(answer_of(hits), keys, kind, q));
    } else {
        assert(is_answer(Err(GaddagError::InvalidQuery), keys, kind, q));
    }
}

} // verus!
