//! The compressed automaton that holds the entries: a set of byte strings
//! from the `fst` crate, and the few operations the index needs from it.
//!
//! Nothing in this file is proved. Each function states what the `fst` crate
//! is taken to do, over the names declared here; the rest of the library is
//! proved from these statements.

use fst::automaton::{Automaton, Str, Subsequence};
use fst::IntoStreamer;
use vstd::prelude::*;
use vstd::utf8::encode_utf8;
use crate::lex::ascending;
use crate::sorted::rows;

verus! {

/// `fst::Set`: a set of byte strings over the data `D`. Nothing of its
/// inside is known here.
#[verifier::external_type_specification]
#[verifier::external_body]
#[verifier::reject_recursive_types(D)]
pub struct ExFstSet<D>(fst::Set<D>);

/// `fst::Error`: why the `fst` crate could not build or read a set.
#[verifier::external_type_specification]
#[verifier::external_body]
pub struct ExFstError(fst::Error);

/// The byte strings that a set holds.
pub uninterp spec fn set_keys(set: fst::Set<Vec<u8>>) -> Set<Seq<u8>>;

/// Whether the bytes behind a set are an automaton as the `fst` crate
/// writes it. A set over other bytes may panic or answer wrongly when read.
pub uninterp spec fn set_intact(set: fst::Set<Vec<u8>>) -> bool;

/// The address of the state in which every walk through a set starts.
pub uninterp spec fn set_root(set: fst::Set<Vec<u8>>) -> usize;

/// The transitions of a set's automaton: from a state's address and a byte
/// to the address of the next state.
pub uninterp spec fn set_edges(set: fst::Set<Vec<u8>>) -> Map<(usize, u8), usize>;

/// What `fst::Set::new` reads out of `bytes` where they are the written
/// form of a set: the keys of that set. `None` where they are the written
/// form of no set.
pub uninterp spec fn written_keys(bytes: Seq<u8>) -> Option<Set<Seq<u8>>>;

/// The state reached from `from` by following `path` byte by byte, or
/// `None` where a byte has no transition.
pub open spec fn walk(edges: Map<(usize, u8), usize>, from: usize, path: Seq<u8>) -> Option<usize>
    decreases path.len(),
{
    if path.len() == 0 {
        Some(from)
    } else if edges.contains_key((from, path[0])) {
        walk(edges, edges[(from, path[0])], path.drop_first())
    } else {
        None
    }
}

/// `addr` is the address of a state that some walk from the root reaches.
pub open spec fn set_has_node(set: fst::Set<Vec<u8>>, addr: usize) -> bool {
    exists|path: Seq<u8>| #[trigger] walk(set_edges(set), set_root(set), path) == Some(addr)
}

/// `built` is an intact set that holds exactly `keys`.
pub open spec fn is_intact_with(built: Result<fst::Set<Vec<u8>>, fst::Error>, keys: Set<Seq<u8>>) -> bool {
    built matches Ok(set) && set_intact(set) && set_keys(set) == keys
}

/// `hits` are the keys that begin with `prefix`, in ascending order.
pub open spec fn is_prefix_hits(hits: Seq<Seq<u8>>, keys: Set<Seq<u8>>, prefix: Seq<u8>) -> bool {
    &&& ascending(hits)
    &&& forall|k: Seq<u8>| hits.contains(k) <==> keys.contains(k) && prefix.is_prefix_of(k)
}

/// `hits` are the keys that begin with `prefix` and nowhere hold the byte
/// `excluded`, in ascending order.
pub open spec fn is_prefix_hits_without(
    hits: Seq<Seq<u8>>,
    keys: Set<Seq<u8>>,
    prefix: Seq<u8>,
    excluded: u8,
) -> bool {
    &&& ascending(hits)
    &&& forall|k: Seq<u8>|
        hits.contains(k) <==> keys.contains(k) && prefix.is_prefix_of(k) && !k.contains(excluded)
}

/// `fst::Set::from_iter`: builds a set from keys handed over in order. It
/// fails only on a key that comes before the key handed over before it, so
/// on an ascending list it succeeds. When it succeeds the set is intact and
/// holds exactly the keys given.
#[verifier::external_body]
pub(crate) fn set_from_sorted(keys: &Vec<Vec<u8>>) -> (r: Result<fst::Set<Vec<u8>>, fst::Error>)
    ensures
        r is Ok ==> is_intact_with(r, rows(keys@).to_set()),
        ascending(rows(keys@)) ==> r is Ok,
{
    fst::Set::from_iter(keys)
}

/// `fst::Set::new`: reads bytes as a set. On the written form of a set it
/// gives that set back; it refuses anything shorter than 36 bytes. What it
/// accepts beyond that need not be intact.
#[verifier::external_body]
pub(crate) fn set_from_bytes(bytes: Vec<u8>) -> (r: Result<fst::Set<Vec<u8>>, fst::Error>)
    ensures
        written_keys(bytes@) is Some ==> is_intact_with(r, written_keys(bytes@).unwrap()),
        r is Ok ==> bytes@.len() >= 36,
{
    fst::Set::new(bytes)
}

/// `fst::raw::Fst::as_bytes`: the bytes behind a set. Those of an intact
/// set are its written form.
#[verifier::external_body]
pub(crate) fn set_as_bytes(set: &fst::Set<Vec<u8>>) -> (bytes: &[u8])
    ensures
        set_intact(*set) ==> written_keys(bytes@) == Some(set_keys(*set)),
{
    set.as_fst().as_bytes()
}

/// `fst::Set::contains`: whether `key` is one of the set's keys.
#[verifier::external_body]
pub(crate) fn set_contains(set: &fst::Set<Vec<u8>>, key: &[u8]) -> (r: bool)
    requires
        set_intact(*set),
    ensures
        r == set_keys(*set).contains(key@),
{
    set.contains(key)
}

/// `fst::Set::search` with the automaton `Str::new(prefix).starts_with()`:
/// the keys that begin with the bytes of `prefix`, in ascending order.
#[verifier::external_body]
pub(crate) fn set_search_prefix(set: &fst::Set<Vec<u8>>, prefix: &str) -> (hits: Vec<Vec<u8>>)
    requires
        set_intact(*set),
    ensures
        is_prefix_hits(rows(hits@), set_keys(*set), encode_utf8(prefix@)),
{
    set.search(Str::new(prefix).starts_with()).into_stream().into_bytes()
}

/// `fst::Set::search` with the automaton above intersected with the
/// complement of `Subsequence::new(excluded)`, for an `excluded` of one
/// byte: the keys that begin with the bytes of `prefix` and nowhere hold
/// that byte, in ascending order.
#[verifier::external_body]
pub(crate) fn set_search_prefix_without(
    set: &fst::Set<Vec<u8>>,
    prefix: &str,
    excluded: &str,
) -> (hits: Vec<Vec<u8>>)
    requires
        set_intact(*set),
        encode_utf8(excluded@).len() == 1,
    ensures
        is_prefix_hits_without(rows(hits@), set_keys(*set), encode_utf8(prefix@), encode_utf8(excluded@)[0]),
{
    let matcher = Str::new(prefix).starts_with().intersection(Subsequence::new(excluded).complement());
    set.search(matcher).into_stream().into_bytes()
}

/// `fst::raw::Fst::root`: the address of the root state. Every key of the
/// set can be walked from it.
#[verifier::external_body]
pub(crate) fn set_root_addr(set: &fst::Set<Vec<u8>>) -> (addr: usize)
    requires
        set_intact(*set),
    ensures
        addr == set_root(*set),
        forall|k: Seq<u8>| set_keys(*set).contains(k) ==> walk(set_edges(*set), addr, k) is Some,
{
    set.as_fst().root().addr()
}

/// `fst::raw::Node::find_input` and `transition_addr` on the state at
/// `addr`: the address that the transition for `byte` leads to, or `None`
/// where the state has no such transition.
#[verifier::external_body]
pub(crate) fn set_step(set: &fst::Set<Vec<u8>>, addr: usize, byte: u8) -> (next: Option<usize>)
    requires
        set_intact(*set),
        set_has_node(*set, addr),
    ensures
        next == if set_edges(*set).contains_key((addr, byte)) {
            Some(set_edges(*set)[(addr, byte)])
        } else {
            None
        },
{
    let node = set.as_fst().node(addr);
    match node.find_input(byte) {
        Some(i) => Some(node.transition_addr(i)),
        None => None,
    }
}

} // verus!
