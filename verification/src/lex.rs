//! Lexicographic order on byte strings, the order in which the index holds and
//! hands out its entries.

use vstd::prelude::*;

verus! {

/// `a` and `b` hold the same bytes at every position below `n`.
pub open spec fn agree(a: Seq<u8>, b: Seq<u8>, n: int) -> bool {
    &&& 0 <= n <= a.len()
    &&& n <= b.len()
    &&& forall|i: int| 0 <= i < n ==> a[i] == b[i]
}

/// `a` comes strictly before `b`: after a common part, either `a` ends and
/// `b` goes on, or `a` holds the smaller byte.
pub open spec fn lex_lt(a: Seq<u8>, b: Seq<u8>) -> bool {
    exists|n: int| #[trigger]
        agree(a, b, n) && n < b.len() && (n == a.len() || a[n] < b[n])
}

/// Every row comes strictly before every later row.
pub open spec fn ascending(rows: Seq<Seq<u8>>) -> bool {
    forall|i: int, j: int| 0 <= i < j < rows.len() ==> lex_lt(#[trigger] rows[i], #[trigger] rows[j])
}

/// No byte string comes before itself.
pub proof fn lemma_lex_irreflexive(a: Seq<u8>)
    ensures
        !lex_lt(a, a),
{
}

/// What comes before a byte string comes before all that it comes before.
pub proof fn lemma_lex_transitive(a: Seq<u8>, b: Seq<u8>, c: Seq<u8>)
    requires
        lex_lt(a, b),
        lex_lt(b, c),
    ensures
        lex_lt(a, c),
{
    let n1 = choose|n: int| #[trigger] agree(a, b, n) && n < b.len() && (n == a.len() || a[n] < b[n]);
    let n2 = choose|n: int| #[trigger] agree(b, c, n) && n < c.len() && (n == b.len() || b[n] < c[n]);
    let n = if n1 <= n2 { n1 } else { n2 };
    assert(agree(a, c, n));
}

/// Of two byte strings at most one comes before the other.
pub proof fn lemma_lex_asymmetric(a: Seq<u8>, b: Seq<u8>)
    requires
        lex_lt(a, b),
    ensures
        !lex_lt(b, a),
{
    if lex_lt(b, a) {
        lemma_lex_transitive(a, b, a);
        lemma_lex_irreflexive(a);
    }
}

/// Two byte strings that agree on `n` bytes are equal, or one comes before
/// the other.
proof fn lemma_lex_total_from(a: Seq<u8>, b: Seq<u8>, n: int)
    requires
        agree(a, b, n),
    ensures
        a == b || lex_lt(a, b) || lex_lt(b, a),
    decreases a.len() - n,
{
    if n == a.len() {
        if n == b.len() {
            assert(a =~= b);
        } else {
            assert(agree(a, b, n));
        }
    } else if n == b.len() {
        assert(agree(b, a, n));
    } else if a[n] < b[n] {
        assert(agree(a, b, n));
    } else if b[n] < a[n] {
        assert(agree(b, a, n));
    } else {
        assert(agree(a, b, n + 1));
        lemma_lex_total_from(a, b, n + 1);
    }
}

/// Of two different byte strings one comes before the other.
pub proof fn lemma_lex_total(a: Seq<u8>, b: Seq<u8>)
    ensures
        a == b || lex_lt(a, b) || lex_lt(b, a),
{
    assert(agree(a, b, 0));
    lemma_lex_total_from(a, b, 0);
}

/// How one byte string stands to another in the order.
#[derive(Debug, Clone, Copy, PartialEq, Eq)]
pub enum Relation {
    Before,
    Same,
    After,
}

/// How `a` stands to `b`: before it, the same, or after it.
pub fn relate(a: &[u8], b: &[u8]) -> (r: Relation)
    ensures
        match r {
            Relation::Before => lex_lt(a@, b@),
            Relation::Same => a@ == b@,
            Relation::After => lex_lt(b@, a@),
        },
{
    let mut i: usize = 0;
    while i < a.len() && i < b.len() && a[i] == b[i]
        invariant
            agree(a@, b@, i as int),
        decreases a.len() - i,
    {
        i += 1;
    }
    if i == a.len() {
        if i == b.len() {
            assert(a@ =~= b@);
            Relation::Same
        } else {
            Relation::Before
        }
    } else if i == b.len() {
        assert(agree(b@, a@, i as int));
        Relation::After
    } else if a[i] < b[i] {
        Relation::Before
    } else {
        assert(agree(b@, a@, i as int));
        Relation::After
    }
}

/// An ascending list is fixed by what it holds: two ascending lists with the
/// same rows are the same list.
pub proof fn lemma_ascending_unique(s: Seq<Seq<u8>>, t: Seq<Seq<u8>>)
    requires
        ascending(s),
        ascending(t),
        forall|k: Seq<u8>| s.contains(k) <==> t.contains(k),
    ensures
        s == t,
    decreases s.len(),
{
    if s.len() == 0 {
        if t.len() > 0 {
            assert(t.contains(t[0]));
        }
        assert(s =~= t);
    } else {
        assert(s.contains(s[0]));
        assert(t.len() > 0);
        assert(t.contains(t[0]));
        let i = choose|i: int| 0 <= i < t.len() && t[i] == s[0];
        let j = choose|j: int| 0 <= j < s.len() && s[j] == t[0];
        if i != 0 && j != 0 {
            lemma_lex_asymmetric(s[0], s[j]);
            assert(lex_lt(t[0], t[i]));
        }
        assert(s[0] == t[0]);
        let s1 = s.drop_first();
        let t1 = t.drop_first();
        assert(ascending(s1)) by {
            assert forall|p: int, q: int| 0 <= p < q < s1.len() implies lex_lt(#[trigger] s1[p], #[trigger] s1[q]) by {
                assert(s1[p] == s[p + 1] && s1[q] == s[q + 1]);
            }
        }
        assert(ascending(t1)) by {
            assert forall|p: int, q: int| 0 <= p < q < t1.len() implies lex_lt(#[trigger] t1[p], #[trigger] t1[q]) by {
                assert(t1[p] == t[p + 1] && t1[q] == t[q + 1]);
            }
        }
        assert forall|k: Seq<u8>| s1.contains(k) <==> t1.contains(k) by {
            if s1.contains(k) {
                let p = choose|p: int| 0 <= p < s1.len() && s1[p] == k;
                assert(s[p + 1] == k);
                assert(lex_lt(s[0], s[p + 1]));
                lemma_lex_irreflexive(k);
                assert(s.contains(k));
                let q = choose|q: int| 0 <= q < t.len() && t[q] == k;
                assert(q != 0);
                assert(t1[q - 1] == k);
            }
            if t1.contains(k) {
                let p = choose|p: int| 0 <= p < t1.len() && t1[p] == k;
                assert(t[p + 1] == k);
                assert(lex_lt(t[0], t[p + 1]));
                lemma_lex_irreflexive(k);
                assert(t.contains(k));
                let q = choose|q: int| 0 <= q < s.len() && s[q] == k;
                assert(q != 0);
                assert(s1[q - 1] == k);
            }
        }
        lemma_ascending_unique(s1, t1);
        assert(s =~= seq![s[0]] + s1);
        assert(t =~= seq![t[0]] + t1);
    }
}

/// The list `l` with `x` put in before the first row that comes after it.
pub open spec fn inserted(l: Seq<Seq<u8>>, x: Seq<u8>) -> Seq<Seq<u8>>
    decreases l.len(),
{
    if l.len() == 0 || lex_lt(x, l[0]) {
        seq![x] + l
    } else {
        seq![l[0]] + inserted(l.drop_first(), x)
    }
}

/// Putting a new row into an ascending list keeps it ascending and adds
/// that row to what it holds.
pub proof fn lemma_inserted(l: Seq<Seq<u8>>, x: Seq<u8>)
    requires
        ascending(l),
        !l.contains(x),
    ensures
        ascending(inserted(l, x)),
        forall|k: Seq<u8>|
            #![trigger inserted(l, x).contains(k)]
            #![trigger l.contains(k)]
            inserted(l, x).contains(k) <==> (k == x || l.contains(k)),
    decreases l.len(),
{
    let r = inserted(l, x);
    if l.len() == 0 || lex_lt(x, l[0]) {
        assert forall|i: int, j: int| 0 <= i < j < r.len() implies lex_lt(#[trigger] r[i], #[trigger] r[j]) by {
            if i == 0 {
                if j > 1 {
                    assert(lex_lt(l[0], l[j - 1]));
                    lemma_lex_transitive(x, l[0], l[j - 1]);
                }
            } else {
                assert(lex_lt(l[i - 1], l[j - 1]));
            }
        }
        assert forall|k: Seq<u8>| r.contains(k) <==> (k == x || l.contains(k)) by {
            if r.contains(k) {
                let i = choose|i: int| 0 <= i < r.len() && r[i] == k;
                if i > 0 {
                    assert(l[i - 1] == k);
                }
            }
            if k == x {
                assert(r[0] == k);
            }
            if l.contains(k) {
                let i = choose|i: int| 0 <= i < l.len() && l[i] == k;
                assert(r[i + 1] == k);
            }
        }
    } else {
        let tail = l.drop_first();
        let rec = inserted(tail, x);
        assert(ascending(tail)) by {
            assert forall|p: int, q: int| 0 <= p < q < tail.len() implies lex_lt(
                #[trigger] tail[p],
                #[trigger] tail[q],
            ) by {
                assert(tail[p] == l[p + 1] && tail[q] == l[q + 1]);
            }
        }
        assert(!tail.contains(x)) by {
            if tail.contains(x) {
                let p = choose|p: int| 0 <= p < tail.len() && tail[p] == x;
                assert(l[p + 1] == x);
            }
        }
        lemma_inserted(tail, x);
        assert(l.contains(l[0]));
        lemma_lex_total(x, l[0]);
        assert forall|j: int| 0 <= j < rec.len() implies lex_lt(l[0], #[trigger] rec[j]) by {
            assert(rec.contains(rec[j]));
            if rec[j] != x {
                let p = choose|p: int| 0 <= p < tail.len() && tail[p] == rec[j];
                assert(lex_lt(l[0], l[p + 1]));
            }
        }
        assert forall|i: int, j: int| 0 <= i < j < r.len() implies lex_lt(#[trigger] r[i], #[trigger] r[j]) by {
            if i == 0 {
                assert(r[j] == rec[j - 1]);
            } else {
                assert(lex_lt(rec[i - 1], rec[j - 1]));
            }
        }
        assert forall|k: Seq<u8>| r.contains(k) <==> (k == x || l.contains(k)) by {
            if r.contains(k) {
                let i = choose|i: int| 0 <= i < r.len() && r[i] == k;
                if i > 0 {
                    assert(rec[i - 1] == k);
                    assert(rec.contains(k));
                    if k != x {
                        let p = choose|p: int| 0 <= p < tail.len() && tail[p] == k;
                        assert(l[p + 1] == k);
                    }
                }
            }
            if k == x {
                assert(rec.contains(x));
                let i = choose|i: int| 0 <= i < rec.len() && rec[i] == x;
                assert(r[i + 1] == k);
            }
            if l.contains(k) {
                let i = choose|i: int| 0 <= i < l.len() && l[i] == k;
                if i == 0 {
                    assert(r[0] == k);
                } else {
                    assert(tail[i - 1] == k);
                    assert(rec.contains(k));
                    let p = choose|p: int| 0 <= p < rec.len() && rec[p] == k;
                    assert(r[p + 1] == k);
                }
            }
        }
    }
}

/// `l` lists `s`: it is ascending and holds exactly what `s` holds.
pub open spec fn lists(l: Seq<Seq<u8>>, s: Set<Seq<u8>>) -> bool {
    &&& ascending(l)
    &&& forall|k: Seq<u8>| l.contains(k) <==> s.contains(k)
}

/// Every finite set of byte strings can be listed in ascending order.
pub proof fn lemma_ascending_list_exists(s: Set<Seq<u8>>)
    requires
        s.finite(),
    ensures
        exists|l: Seq<Seq<u8>>| #[trigger] lists(l, s),
    decreases s.len(),
{
    if s.len() == 0 {
        s.lemma_len0_is_empty();
        let l = Seq::<Seq<u8>>::empty();
        assert(lists(l, s));
    } else {
        let x = s.choose();
        let rest = s.remove(x);
        lemma_ascending_list_exists(rest);
        let shorter = choose|l: Seq<Seq<u8>>| #[trigger] lists(l, rest);
        lemma_inserted(shorter, x);
        assert(lists(inserted(shorter, x), s));
    }
}

} // verus!
