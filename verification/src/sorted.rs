//! Lists of byte strings in ascending order without repeats: the form in
//! which entries are handed to the automaton.

use vstd::prelude::*;
use vstd::slice::slice_to_vec;
use crate::lex::{ascending, lemma_lex_transitive, lex_lt, relate, Relation};

verus! {

/// The rows of a list of byte vectors.
pub open spec fn rows(list: Seq<Vec<u8>>) -> Seq<Seq<u8>> {
    Seq::new(list.len(), |i: int| list[i]@)
}

/// What a joined list holds is what its two parts hold.
pub proof fn lemma_to_set_of_join(s: Seq<Seq<u8>>, t: Seq<Seq<u8>>)
    ensures
        (s + t).to_set() == s.to_set().union(t.to_set()),
{
    let st = s + t;
    assert forall|k: Seq<u8>| st.to_set().contains(k) <==> s.to_set().union(t.to_set()).contains(k) by {
        if st.contains(k) {
            let i = choose|i: int| 0 <= i < st.len() && st[i] == k;
            if i < s.len() {
                assert(s[i] == k);
            } else {
                assert(t[i - s.len()] == k);
            }
        }
        if s.contains(k) {
            let i = choose|i: int| 0 <= i < s.len() && s[i] == k;
            assert(st[i] == k);
        }
        if t.contains(k) {
            let i = choose|i: int| 0 <= i < t.len() && t[i] == k;
            assert(st[i + s.len()] == k);
        }
    }
    assert((s + t).to_set() =~= s.to_set().union(t.to_set()));
}

/// An ascending list stays ascending when a row greater than its last row
/// is put at its end.
proof fn lemma_ascending_push(s: Seq<Seq<u8>>, x: Seq<u8>)
    requires
        ascending(s),
        s.len() > 0 ==> lex_lt(s.last(), x),
    ensures
        ascending(s.push(x)),
{
    let t = s.push(x);
    assert forall|i: int, j: int| 0 <= i < j < t.len() implies lex_lt(#[trigger] t[i], #[trigger] t[j]) by {
        if j == s.len() {
            if i < s.len() - 1 {
                assert(lex_lt(s[i], s[s.len() - 1]));
                lemma_lex_transitive(s[i], s.last(), x);
            }
        } else {
            assert(lex_lt(s[i], s[j]));
        }
    }
}

/// Merges two ascending lists into one ascending list that holds what
/// either holds, each row once.
pub fn merge(a: &Vec<Vec<u8>>, b: &Vec<Vec<u8>>) -> (out: Vec<Vec<u8>>)
    requires
        ascending(rows(a@)),
        ascending(rows(b@)),
    ensures
        ascending(rows(out@)),
        rows(out@).to_set() == rows(a@).to_set().union(rows(b@).to_set()),
{
    let mut out: Vec<Vec<u8>> = Vec::new();
    let mut i: usize = 0;
    let mut j: usize = 0;
    assert(rows(out@).to_set() =~= rows(a@).take(0).to_set().union(rows(b@).take(0).to_set()));
    while i < a.len() || j < b.len()
        invariant
            i <= a.len(),
            j <= b.len(),
            ascending(rows(a@)),
            ascending(rows(b@)),
            ascending(rows(out@)),
            rows(out@).to_set() == rows(a@).take(i as int).to_set().union(
                rows(b@).take(j as int).to_set(),
            ),
            out.len() > 0 && i < a.len() ==> lex_lt(rows(out@).last(), rows(a@)[i as int]),
            out.len() > 0 && j < b.len() ==> lex_lt(rows(out@).last(), rows(b@)[j as int]),
        decreases a.len() - i + b.len() - j,
    {
        let ghost before = rows(out@);
        let ghost ra = rows(a@);
        let ghost rb = rows(b@);
        let turn: Relation = if j == b.len() {
            Relation::Before
        } else if i == a.len() {
            Relation::After
        } else {
            relate(a[i].as_slice(), b[j].as_slice())
        };
        match turn {
            Relation::Before => {
                out.push(slice_to_vec(a[i].as_slice()));
                proof {
                    let x = ra[i as int];
                    assert(rows(out@) =~= before.push(x));
                    lemma_ascending_push(before, x);
                    before.lemma_push_to_set_commute(x);
                    assert(ra.take(i + 1) =~= ra.take(i as int).push(x));
                    ra.take(i as int).lemma_push_to_set_commute(x);
                    if i + 1 < a.len() {
                        assert(lex_lt(ra[i as int], ra[i + 1]));
                    }
                    assert(rows(out@).to_set() =~= ra.take(i + 1).to_set().union(rb.take(j as int).to_set()));
                }
                i += 1;
            },
            Relation::After => {
                out.push(slice_to_vec(b[j].as_slice()));
                proof {
                    let x = rb[j as int];
                    assert(rows(out@) =~= before.push(x));
                    lemma_ascending_push(before, x);
                    before.lemma_push_to_set_commute(x);
                    assert(rb.take(j + 1) =~= rb.take(j as int).push(x));
                    rb.take(j as int).lemma_push_to_set_commute(x);
                    if j + 1 < b.len() {
                        assert(lex_lt(rb[j as int], rb[j + 1]));
                    }
                    assert(rows(out@).to_set() =~= ra.take(i as int).to_set().union(rb.take(j + 1).to_set()));
                }
                j += 1;
            },
            Relation::Same => {
                out.push(slice_to_vec(a[i].as_slice()));
                proof {
                    let x = ra[i as int];
                    assert(rows(out@) =~= before.push(x));
                    lemma_ascending_push(before, x);
                    before.lemma_push_to_set_commute(x);
                    assert(ra.take(i + 1) =~= ra.take(i as int).push(x));
                    ra.take(i as int).lemma_push_to_set_commute(x);
                    assert(rb.take(j + 1) =~= rb.take(j as int).push(x));
                    rb.take(j as int).lemma_push_to_set_commute(x);
                    if i + 1 < a.len() {
                        assert(lex_lt(ra[i as int], ra[i + 1]));
                    }
                    if j + 1 < b.len() {
                        assert(lex_lt(rb[j as int], rb[j + 1]));
                    }
                    assert(rows(out@).to_set() =~= ra.take(i + 1).to_set().union(rb.take(j + 1).to_set()));
                }
                i += 1;
                j += 1;
            },
        }
    }
    assert(rows(a@).take(i as int) =~= rows(a@));
    assert(rows(b@).take(j as int) =~= rows(b@));
    out
}

/// The rows of `list` from `lo` up to `hi`, in ascending order, each once.
pub fn sort_range(list: &Vec<Vec<u8>>, lo: usize, hi: usize) -> (out: Vec<Vec<u8>>)
    requires
        lo <= hi <= list.len(),
    ensures
        ascending(rows(out@)),
        rows(out@).to_set() == rows(list@).subrange(lo as int, hi as int).to_set(),
    decreases hi - lo,
{
    let ghost part = rows(list@).subrange(lo as int, hi as int);
    if hi - lo == 0 {
        let out: Vec<Vec<u8>> = Vec::new();
        assert(rows(out@) =~= part);
        out
    } else if hi - lo == 1 {
        let mut out: Vec<Vec<u8>> = Vec::new();
        out.push(slice_to_vec(list[lo].as_slice()));
        assert(rows(out@) =~= part);
        out
    } else {
        let mid: usize = lo + (hi - lo) / 2;
        let left = sort_range(list, lo, mid);
        let right = sort_range(list, mid, hi);
        proof {
            let l = rows(list@).subrange(lo as int, mid as int);
            let r = rows(list@).subrange(mid as int, hi as int);
            assert(part =~= l + r);
            lemma_to_set_of_join(l, r);
        }
        merge(&left, &right)
    }
}

/// The rows of `list` in ascending order, each once.
pub fn sort_dedup(list: &Vec<Vec<u8>>) -> (out: Vec<Vec<u8>>)
    ensures
        ascending(rows(out@)),
        rows(out@).to_set() == rows(list@).to_set(),
{
    assert(rows(list@).subrange(0, list@.len() as int) =~= rows(list@));
    sort_range(list, 0, list.len())
}

} // verus!
