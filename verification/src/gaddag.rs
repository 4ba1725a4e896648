//! The index: the entries of a dictionary in a compressed automaton, the
//! four queries on it, and stepping through its states.

use fst::raw::CompiledAddr;
use vstd::prelude::*;
use vstd::utf8::{encode_utf8, is_ascii_chars_encode_utf8};
use crate::automaton::{
    is_prefix_hits, is_prefix_hits_without, set_as_bytes, set_contains, set_edges, set_from_bytes,
    set_from_sorted, set_intact, set_keys, set_root, set_root_addr, set_search_prefix,
    set_search_prefix_without, set_step, walk, written_keys,
};
use crate::builder::{all_valid, build_entries, first_invalid};
use crate::entry::{all_letters, demangle_item, entry_set, is_letter, reversed, SEP, SEP_STR};
use crate::error::GaddagError;
use crate::query::{all_text, answer_of, contains_answer, given, is_answer, is_hit_list, words_of, QueryKind};
use crate::sorted::rows;
use crate::text::{ascii_text, is_ascii_bytes, texts};

verus! {

/// A dictionary index. It holds the directional entries of its words, and
/// is never changed once made.
pub struct Gaddag(fst::Set<Vec<u8>>);

impl View for Gaddag {
    type V = Set<Seq<u8>>;

    /// The entries that the index holds.
    closed spec fn view(&self) -> Set<Seq<u8>> {
        set_keys(self.0)
    }
}

/// The byte that stands for `c` in text, where one byte does.
pub open spec fn char_byte(c: char) -> Option<u8> {
    if (c as u32) < 128 {
        Some(c as u8)
    } else {
        None
    }
}

/// Following `a` and then `b` is following `a + b`.
pub proof fn lemma_walk_join(edges: Map<(usize, u8), usize>, from: usize, a: Seq<u8>, b: Seq<u8>)
    ensures
        walk(edges, from, a + b) == match walk(edges, from, a) {
            Some(mid) => walk(edges, mid, b),
            None => None,
        },
    decreases a.len(),
{
    if a.len() == 0 {
        assert(a + b =~= b);
    } else {
        assert((a + b).drop_first() =~= a.drop_first() + b);
        if edges.contains_key((from, a[0])) {
            lemma_walk_join(edges, edges[(from, a[0])], a.drop_first(), b);
        }
    }
}

/// Turns the entries found into their words, as text.
pub fn demangle_all(hits: &Vec<Vec<u8>>) -> (r: Result<Vec<String>, GaddagError>)
    ensures
        given(r) == answer_of(rows(hits@)),
{
    let ghost words = words_of(rows(hits@));
    let mut out: Vec<String> = Vec::new();
    let mut i: usize = 0;
    while i < hits.len()
        invariant
            i <= hits.len(),
            words == words_of(rows(hits@)),
            out@.len() == i,
            forall|j: int| 0 <= j < i ==> encode_utf8(#[trigger] out@[j]@) == words[j],
            forall|j: int| 0 <= j < i ==> is_ascii_bytes(#[trigger] words[j]),
        decreases hits.len() - i,
    {
        let word = demangle_item(hits[i].as_slice());
        assert(word@ == words[i as int]);
        match ascii_text(word) {
            Some(text) => {
                out.push(text);
            },
            None => {
                assert(!all_text(words));
                return Err(GaddagError::CorruptIndex);
            },
        }
        i += 1;
    }
    assert(texts(out@) =~= words);
    Ok(out)
}

impl Gaddag {
    /// The automaton under the index is intact. Every index that
    /// `from_words` makes is; one made from bytes or from a set is as intact
    /// as what it was made from. Reading an index that is not may panic.
    pub closed spec fn wf(&self) -> bool {
        set_intact(self.0)
    }

    /// The address of the state in which every walk starts.
    pub closed spec fn root(&self) -> usize {
        set_root(self.0)
    }

    /// The transitions of the automaton: from a state's address and a byte
    /// to the address of the next state.
    pub closed spec fn edges(&self) -> Map<(usize, u8), usize> {
        set_edges(self.0)
    }

    /// The state reached from the root by `path`, where every byte of it
    /// has a transition.
    pub open spec fn node_at(&self, path: Seq<u8>) -> Option<usize> {
        walk(self.edges(), self.root(), path)
    }

    /// `addr` is the address of a state of this index.
    pub open spec fn is_node(&self, addr: usize) -> bool {
        exists|path: Seq<u8>| #[trigger] self.node_at(path) == Some(addr)
    }

    /// The state that the transition for `byte` leads to from the state at
    /// `addr`, where there is one.
    pub open spec fn next_node(&self, addr: usize, byte: u8) -> Option<usize> {
        if self.edges().contains_key((addr, byte)) {
            Some(self.edges()[(addr, byte)])
        } else {
            None
        }
    }

    /// Takes a set of entries as an index.
    pub fn from_fst(set: fst::Set<Vec<u8>>) -> (g: Gaddag)
        ensures
            g@ == set_keys(set),
            g.wf() == set_intact(set),
            g.root() == set_root(set),
            g.edges() == set_edges(set),
    {
        Gaddag(set)
    }

    /// The index for what building the automaton gave: the set built, or
    /// `BuildFailure`.
    pub fn from_build(built: Result<fst::Set<Vec<u8>>, fst::Error>) -> (r: Result<Gaddag, GaddagError>)
        ensures
            built matches Ok(set) ==> (r matches Ok(g) && g@ == set_keys(set) && g.wf() == set_intact(set)),
            built is Err ==> r == Err::<Gaddag, GaddagError>(GaddagError::BuildFailure),
    {
        match built {
            Ok(set) => Ok(Gaddag::from_fst(set)),
            Err(_) => Err(GaddagError::BuildFailure),
        }
    }

    /// The index for what reading bytes as an automaton gave: the set read,
    /// or `CorruptIndex`.
    pub fn from_read(read: Result<fst::Set<Vec<u8>>, fst::Error>) -> (r: Result<Gaddag, GaddagError>)
        ensures
            read matches Ok(set) ==> (r matches Ok(g) && g@ == set_keys(set) && g.wf() == set_intact(set)),
            read is Err ==> r == Err::<Gaddag, GaddagError>(GaddagError::CorruptIndex),
    {
        match read {
            Ok(set) => Ok(Gaddag::from_fst(set)),
            Err(_) => Err(GaddagError::CorruptIndex),
        }
    }

    /// Builds an index from a list of words. It holds every entry of every
    /// word and nothing else. The build succeeds exactly when every entry
    /// of the list is a word; otherwise the first that is none is handed
    /// back in the error.
    pub fn from_words(words: Vec<String>) -> (r: Result<Gaddag, GaddagError>)
        ensures
            match r {
                Ok(g) => g.wf() && all_valid(texts(words@)) && g@ == entry_set(texts(words@)),
                Err(GaddagError::InvalidWord(word)) => exists|i: int|
                    #[trigger] first_invalid(texts(words@), i) && word@ == words@[i]@,
                Err(_) => false,
            },
    {
        match build_entries(words) {
            Ok(entries) => Gaddag::from_build(set_from_sorted(&entries)),
            Err(e) => Err(e),
        }
    }

    /// Takes the written form of an index back in. On the bytes that
    /// `as_bytes` gave for an intact index the result is an intact index
    /// with the same entries. The only failure is `CorruptIndex`; fewer than
    /// 36 bytes always fail.
    pub fn from_bytes(bytes: Vec<u8>) -> (r: Result<Gaddag, GaddagError>)
        ensures
            written_keys(bytes@) matches Some(keys) ==> (r matches Ok(g) && g.wf() && g@ == keys),
            r is Err ==> r == Err::<Gaddag, GaddagError>(GaddagError::CorruptIndex),
            bytes@.len() < 36 ==> r is Err,
    {
        Gaddag::from_read(set_from_bytes(bytes))
    }

    /// The written form of the index.
    pub fn as_bytes(&self) -> (bytes: &[u8])
        ensures
            self.wf() ==> written_keys(bytes@) == Some(self@),
    {
        set_as_bytes(&self.0)
    }

    /// Whether `input` is a word of the dictionary.
    pub fn contains(&self, input: &str) -> (r: Result<bool, GaddagError>)
        requires
            self.wf(),
        ensures
            r == contains_answer(self@, encode_utf8(input@)),
    {
        let q = input.as_bytes();
        if !all_letters(q) {
            return Err(GaddagError::InvalidQuery);
        }
        let key = reversed(q);
        Ok(set_contains(&self.0, key.as_slice()))
    }

    /// The words of the entries that begin with `prefix`.
    fn search_fst(&self, prefix: Vec<u8>) -> (r: Result<Vec<String>, GaddagError>)
        requires
            self.wf(),
            is_ascii_bytes(prefix@),
        ensures
            exists|hits: Seq<Seq<u8>>| #[trigger] is_prefix_hits(hits, self@, prefix@) && given(r) == answer_of(hits),
    {
        let ghost wanted = prefix@;
        match ascii_text(prefix) {
            Some(text) => {
                let hits = set_search_prefix(&self.0, text.as_str());
                let r = demangle_all(&hits);
                assert(is_prefix_hits(rows(hits@), self@, wanted));
                r
            },
            None => Err(GaddagError::CorruptIndex),
        }
    }

    /// The words of the whole entries that begin with `prefix`.
    fn search_whole(&self, prefix: Vec<u8>) -> (r: Result<Vec<String>, GaddagError>)
        requires
            self.wf(),
            is_ascii_bytes(prefix@),
        ensures
            exists|hits: Seq<Seq<u8>>| #[trigger]
                is_prefix_hits_without(hits, self@, prefix@, SEP) && given(r) == answer_of(hits),
    {
        let ghost wanted = prefix@;
        proof {
            reveal_strlit(",");
            is_ascii_chars_encode_utf8(SEP_STR@);
            assert(encode_utf8(SEP_STR@) =~= seq![SEP]);
        }
        match ascii_text(prefix) {
            Some(text) => {
                let hits = set_search_prefix_without(&self.0, text.as_str(), SEP_STR);
                let r = demangle_all(&hits);
                assert(is_prefix_hits_without(rows(hits@), self@, wanted, SEP));
                r
            },
            None => Err(GaddagError::CorruptIndex),
        }
    }

    /// All the words that start with `input` and go on after it. The empty
    /// `input` gives every word.
    pub fn starts_with(&self, input: &str) -> (r: Result<Vec<String>, GaddagError>)
        requires
            self.wf(),
        ensures
            is_answer(given(r), self@, QueryKind::StartsWith, encode_utf8(input@)),
    {
        let q = input.as_bytes();
        if !all_letters(q) {
            return Err(GaddagError::InvalidQuery);
        }
        if q.len() == 0 {
            let r = self.search_whole(Vec::new());
            proof {
                let hits = choose|hits: Seq<Seq<u8>>| #[trigger]
                    is_prefix_hits_without(hits, self@, Seq::<u8>::empty(), SEP) && given(r) == answer_of(hits);
                assert forall|k: Seq<u8>| Seq::<u8>::empty().is_prefix_of(k) by {}
                assert(is_hit_list(hits, self@, QueryKind::StartsWith, q@));
            }
            return r;
        }
        let mut key = reversed(q);
        key.push(SEP);
        assert(is_ascii_bytes(key@)) by {
            assert forall|i: int| 0 <= i < key@.len() implies #[trigger] key@[i] < 128 by {
                if i < q@.len() {
                    assert(is_letter(q@[q@.len() - 1 - i]));
                }
            }
        }
        let r = self.search_fst(key);
        proof {
            let hits = choose|hits: Seq<Seq<u8>>| #[trigger]
                is_prefix_hits(hits, self@, q@.reverse().push(SEP)) && given(r) == answer_of(hits);
            assert(is_hit_list(hits, self@, QueryKind::StartsWith, q@));
        }
        r
    }

    /// All the words that end with `input`.
    pub fn ends_with(&self, input: &str) -> (r: Result<Vec<String>, GaddagError>)
        requires
            self.wf(),
        ensures
            is_answer(given(r), self@, QueryKind::EndsWith, encode_utf8(input@)),
    {
        let q = input.as_bytes();
        if !all_letters(q) {
            return Err(GaddagError::InvalidQuery);
        }
        let key = reversed(q);
        assert(is_ascii_bytes(key@)) by {
            assert forall|i: int| 0 <= i < key@.len() implies #[trigger] key@[i] < 128 by {
                assert(is_letter(q@[q@.len() - 1 - i]));
            }
        }
        let r = self.search_whole(key);
        proof {
            let hits = choose|hits: Seq<Seq<u8>>| #[trigger]
                is_prefix_hits_without(hits, self@, q@.reverse(), SEP) && given(r) == answer_of(hits);
            assert(is_hit_list(hits, self@, QueryKind::EndsWith, q@));
        }
        r
    }

    /// All the words that hold `input` anywhere in them, once for each
    /// entry that shows it.
    pub fn substring(&self, input: &str) -> (r: Result<Vec<String>, GaddagError>)
        requires
            self.wf(),
        ensures
            is_answer(given(r), self@, QueryKind::Substring, encode_utf8(input@)),
    {
        let q = input.as_bytes();
        if !all_letters(q) {
            return Err(GaddagError::InvalidQuery);
        }
        let key = reversed(q);
        assert(is_ascii_bytes(key@)) by {
            assert forall|i: int| 0 <= i < key@.len() implies #[trigger] key@[i] < 128 by {
                assert(is_letter(q@[q@.len() - 1 - i]));
            }
        }
        let r = self.search_fst(key);
        proof {
            let hits = choose|hits: Seq<Seq<u8>>| #[trigger]
                is_prefix_hits(hits, self@, q@.reverse()) && given(r) == answer_of(hits);
            assert(is_hit_list(hits, self@, QueryKind::Substring, q@));
        }
        r
    }

    /// The state reached from the root by the bytes of `prefix`, taken as
    /// they are, or `None` where the walk fails on the way. The walk
    /// succeeds on everything that an entry begins with.
    pub fn node_for_prefix(&self, prefix: &str) -> (r: Option<CompiledAddr>)
        requires
            self.wf(),
        ensures
            r == self.node_at(encode_utf8(prefix@)),
            r matches Some(addr) ==> self.is_node(addr),
            forall|k: Seq<u8>| self@.contains(k) && encode_utf8(prefix@).is_prefix_of(k) ==> r is Some,
    {
        let path = prefix.as_bytes();
        let mut current: usize = set_root_addr(&self.0);
        let mut i: usize = 0;
        assert(path@.take(0) =~= Seq::<u8>::empty());
        while i < path.len()
            invariant
                i <= path.len(),
                self.wf(),
                path@ == encode_utf8(prefix@),
                self.node_at(path@.take(i as int)) == Some(current),
                forall|k: Seq<u8>| self@.contains(k) ==> self.node_at(k) is Some,
            decreases path.len() - i,
        {
            let byte: u8 = path[i];
            let ghost done = path@.take(i as int);
            let ghost rest = path@.skip(i as int);
            let next = set_step(&self.0, current, byte);
            proof {
                assert(done + rest =~= path@);
                assert(done + seq![byte] =~= path@.take(i + 1));
                assert(rest[0] == byte);
                assert(seq![byte].drop_first() =~= Seq::<u8>::empty());
                lemma_walk_join(self.edges(), self.root(), done, rest);
                lemma_walk_join(self.edges(), self.root(), done, seq![byte]);
                if let Some(addr) = next {
                    assert(walk(self.edges(), addr, Seq::<u8>::empty()) == Some(addr));
                    assert(walk(self.edges(), current, seq![byte]) == Some(addr));
                } else {
                    assert(walk(self.edges(), current, rest) is None);
                    assert forall|k: Seq<u8>| self@.contains(k) && path@.is_prefix_of(k) implies false by {
                        lemma_walk_join(self.edges(), self.root(), path@, k.skip(path@.len() as int));
                        assert(path@ + k.skip(path@.len() as int) =~= k);
                    }
                }
            }
            match next {
                Some(addr) => {
                    current = addr;
                },
                None => {
                    return None;
                },
            }
            i += 1;
        }
        assert(path@.take(i as int) =~= path@);
        Some(current)
    }

    /// One step: the state that the transition for `byte` leads to from
    /// the state at `node_addr`, or `None` where it has none. The separator
    /// is a byte like any other here.
    pub fn step(&self, node_addr: CompiledAddr, byte: u8) -> (r: Option<CompiledAddr>)
        requires
            self.wf(),
            self.is_node(node_addr),
        ensures
            r == self.next_node(node_addr, byte),
            r matches Some(addr) ==> self.is_node(addr),
            forall|path: Seq<u8>| self.node_at(path) == Some(node_addr) ==> self.node_at(path.push(byte)) == r,
    {
        let r = set_step(&self.0, node_addr, byte);
        proof {
            assert forall|path: Seq<u8>| self.node_at(path) == Some(node_addr) implies self.node_at(
                path.push(byte),
            ) == r by {
                lemma_walk_join(self.edges(), self.root(), path, seq![byte]);
                assert(path + seq![byte] =~= path.push(byte));
                assert(seq![byte].drop_first() =~= Seq::<u8>::empty());
                if let Some(addr) = r {
                    assert(walk(self.edges(), addr, Seq::<u8>::empty()) == Some(addr));
                }
                assert(walk(self.edges(), node_addr, seq![byte]) == r);
            }
            if r is Some {
                let path = choose|path: Seq<u8>| #[trigger] self.node_at(path) == Some(node_addr);
                assert(self.node_at(path.push(byte)) == r);
            }
        }
        r
    }

    /// One step for a character: the step for its byte where it is ASCII,
    /// `None` for any other, which no single byte stands for.
    pub fn can_next(&self, node_addr: CompiledAddr, next: char) -> (r: Option<CompiledAddr>)
        requires
            self.wf(),
            self.is_node(node_addr),
        ensures
            r == match char_byte(next) {
                Some(byte) => self.next_node(node_addr, byte),
                None => None,
            },
            r matches Some(addr) ==> self.is_node(addr),
    {
        if (next as u32) < 128 {
            self.step(node_addr, next as u8)
        } else {
            None
        }
    }
}

} // verus!
