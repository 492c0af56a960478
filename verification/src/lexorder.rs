//! Lexicographic order on byte sequences.
//!
//! Digests are rendered as strings and compared by their bytes; the
//! predecessor lists and removal-id lists are sorted in this order before
//! they are hashed, which makes a node's digest independent of the order in
//! which its predecessors were supplied.

use vstd::multiset::Multiset;
use vstd::prelude::*;
use vstd::relations::{sorted_by, total_ordering};

verus! {

/// `a` comes no later than `b` in byte-wise lexicographic order.
pub open spec fn lex_leq(a: Seq<u8>, b: Seq<u8>) -> bool
    decreases a.len(),
{
    if a.len() == 0 {
        true
    } else if b.len() == 0 {
        false
    } else if a[0] < b[0] {
        true
    } else if a[0] > b[0] {
        false
    } else {
        lex_leq(a.drop_first(), b.drop_first())
    }
}

/// The order as a closure value, for use with `Seq::sort_by`.
pub open spec fn lex_leq_fn() -> spec_fn(Seq<u8>, Seq<u8>) -> bool {
    |a: Seq<u8>, b: Seq<u8>| lex_leq(a, b)
}

pub proof fn lemma_lex_leq_refl(a: Seq<u8>)
    ensures
        lex_leq(a, a),
    decreases a.len(),
{
    if a.len() > 0 {
        lemma_lex_leq_refl(a.drop_first());
    }
}

pub proof fn lemma_lex_leq_total(a: Seq<u8>, b: Seq<u8>)
    ensures
        lex_leq(a, b) || lex_leq(b, a),
    decreases a.len(),
{
    if a.len() > 0 && b.len() > 0 && a[0] == b[0] {
        lemma_lex_leq_total(a.drop_first(), b.drop_first());
    }
}

pub proof fn lemma_lex_leq_antisym(a: Seq<u8>, b: Seq<u8>)
    requires
        lex_leq(a, b),
        lex_leq(b, a),
    ensures
        a == b,
    decreases a.len(),
{
    if a.len() == 0 {
        assert(b.len() == 0);
        assert(a =~= b);
    } else {
        lemma_lex_leq_antisym(a.drop_first(), b.drop_first());
        assert(a =~= seq![a[0]] + a.drop_first());
        assert(b =~= seq![b[0]] + b.drop_first());
        assert(a =~= b);
    }
}

pub proof fn lemma_lex_leq_trans(a: Seq<u8>, b: Seq<u8>, c: Seq<u8>)
    requires
        lex_leq(a, b),
        lex_leq(b, c),
    ensures
        lex_leq(a, c),
    decreases a.len(),
{
    if a.len() > 0 && b.len() > 0 && c.len() > 0 && a[0] == b[0] && b[0] == c[0] {
        lemma_lex_leq_trans(a.drop_first(), b.drop_first(), c.drop_first());
    }
}

/// `lex_leq` is a total order, in the sense `Seq::sort_by` expects.
pub proof fn lemma_lex_leq_total_ordering()
    ensures
        total_ordering(lex_leq_fn()),
{
    let leq = lex_leq_fn();
    assert forall|a: Seq<u8>| #[trigger] leq(a, a) by {
        lemma_lex_leq_refl(a);
    }
    assert forall|a: Seq<u8>, b: Seq<u8>| #[trigger] leq(a, b) && #[trigger] leq(b, a) implies a
        == b by {
        lemma_lex_leq_antisym(a, b);
    }
    assert forall|a: Seq<u8>, b: Seq<u8>, c: Seq<u8>|
        #[trigger] leq(a, b) && #[trigger] leq(b, c) implies leq(a, c) by {
        lemma_lex_leq_trans(a, b, c);
    }
    assert forall|a: Seq<u8>, b: Seq<u8>| #[trigger] leq(a, b) || #[trigger] leq(b, a) by {
        lemma_lex_leq_total(a, b);
    }
}

/// Equal prefixes of length `i` do not affect the comparison of the rests.
proof fn lemma_lex_leq_skip(a: Seq<u8>, b: Seq<u8>, i: int)
    requires
        0 <= i <= a.len(),
        i <= b.len(),
        forall|k: int| 0 <= k < i ==> a[k] == b[k],
    ensures
        lex_leq(a, b) == lex_leq(a.skip(i), b.skip(i)),
    decreases i,
{
    if i > 0 {
        assert(a.len() > 0 && b.len() > 0 && a[0] == b[0]);
        assert(a.drop_first().skip(i - 1) =~= a.skip(i));
        assert(b.drop_first().skip(i - 1) =~= b.skip(i));
        lemma_lex_leq_skip(a.drop_first(), b.drop_first(), i - 1);
    } else {
        assert(a.skip(0) =~= a);
        assert(b.skip(0) =~= b);
    }
}

/// Byte-wise lexicographic comparison of two byte slices.
pub fn bytes_leq(a: &[u8], b: &[u8]) -> (r: bool)
    ensures
        r == lex_leq(a@, b@),
{
    let mut i: usize = 0;
    loop
        invariant
            0 <= i <= a@.len(),
            i <= b@.len(),
            forall|k: int| 0 <= k < i ==> a@[k] == b@[k],
        decreases a@.len() - i,
    {
        proof {
            lemma_lex_leq_skip(a@, b@, i as int);
        }
        if i == a.len() {
            assert(a@.skip(i as int).len() == 0);
            return true;
        }
        if i == b.len() {
            assert(b@.skip(i as int).len() == 0);
            assert(a@.skip(i as int).len() > 0);
            return false;
        }
        let x = a[i];
        let y = b[i];
        assert(a@.skip(i as int)[0] == x);
        assert(b@.skip(i as int)[0] == y);
        if x < y {
            return true;
        }
        if x > y {
            return false;
        }
        i = i + 1;
    }
}

/// The concatenation of a sequence of byte sequences.
pub open spec fn concat_bytes(s: Seq<Seq<u8>>) -> Seq<u8>
    decreases s.len(),
{
    if s.len() == 0 {
        seq![]
    } else {
        s[0] + concat_bytes(s.drop_first())
    }
}

/// Appending one more piece extends the concatenation at the end.
pub proof fn lemma_concat_bytes_push(s: Seq<Seq<u8>>, x: Seq<u8>)
    ensures
        concat_bytes(s.push(x)) == concat_bytes(s) + x,
    decreases s.len(),
{
    if s.len() == 0 {
        assert(s.push(x)[0] == x);
        assert(s.push(x).drop_first() =~= Seq::<Seq<u8>>::empty());
        assert(concat_bytes(Seq::<Seq<u8>>::empty()) == Seq::<u8>::empty());
        assert(concat_bytes(s.push(x)) =~= x);
        assert(concat_bytes(s) + x =~= x);
    } else {
        assert(s.push(x)[0] == s[0]);
        assert(s.push(x).drop_first() =~= s.drop_first().push(x));
        lemma_concat_bytes_push(s.drop_first(), x);
        assert(concat_bytes(s.push(x)) == s[0] + (concat_bytes(s.drop_first()) + x));
        assert(s[0] + (concat_bytes(s.drop_first()) + x) =~= (s[0] + concat_bytes(s.drop_first()))
            + x);
    }
}

/// The views of a sequence of byte vectors.
pub open spec fn byte_views(s: Seq<Vec<u8>>) -> Seq<Seq<u8>> {
    s.map_values(|b: Vec<u8>| b@)
}

/// Sort byte vectors ascending in lexicographic order.  The result views are
/// exactly `Seq::sort_by` of the input views, so any two inputs holding the
/// same multiset of byte sequences sort to the same sequence.
pub fn sort_byte_seqs(v: Vec<Vec<u8>>) -> (r: Vec<Vec<u8>>)
    ensures
        byte_views(r@) == byte_views(v@).sort_by(lex_leq_fn()),
{
    broadcast use vstd::seq_lib::group_to_multiset_ensures;
    broadcast use vstd::seq_lib::to_multiset_insert;

    let ghost orig = byte_views(v@);
    let mut rest = v;
    let mut r: Vec<Vec<u8>> = Vec::new();
    loop
        invariant
            sorted_by(byte_views(r@), lex_leq_fn()),
            byte_views(rest@).to_multiset().add(byte_views(r@).to_multiset())
                == orig.to_multiset(),
        ensures
            rest@.len() == 0,
        decreases rest@.len(),
    {
        let ghost prev_rest = rest@;
        let x = match rest.pop() {
            Some(x) => x,
            None => {
                break ;
            },
        };
        proof {
            assert(byte_views(prev_rest) =~= byte_views(rest@).push(x@));
            byte_views(rest@).to_multiset_ensures();
            assert(byte_views(rest@).push(x@).to_multiset() == byte_views(
                rest@,
            ).to_multiset().insert(x@));
        }
        let mut pos: usize = 0;
        loop
            invariant_except_break
                pos <= r@.len(),
                forall|k: int| 0 <= k < pos ==> lex_leq(byte_views(r@)[k], x@),
            ensures
                pos <= r@.len(),
                forall|k: int| 0 <= k < pos ==> lex_leq(byte_views(r@)[k], x@),
                pos < r@.len() ==> lex_leq(x@, byte_views(r@)[pos as int]),
            decreases r@.len() - pos,
        {
            if pos == r.len() {
                break ;
            }
            let le = bytes_leq(r[pos].as_slice(), x.as_slice());
            if !le {
                proof {
                    lemma_lex_leq_total(byte_views(r@)[pos as int], x@);
                }
                break ;
            }
            pos = pos + 1;
        }
        proof {
            let vs = byte_views(r@);
            let leq = lex_leq_fn();
            assert forall|i: int, j: int|
                0 <= i < j < vs.insert(pos as int, x@).len() implies #[trigger] leq(
                vs.insert(pos as int, x@)[i],
                vs.insert(pos as int, x@)[j],
            ) by {
                let s2 = vs.insert(pos as int, x@);
                if i < pos && j == pos {
                    assert(s2[i] == vs[i] && s2[j] == x@);
                } else if i == pos && j > pos {
                    assert(s2[i] == x@ && s2[j] == vs[j - 1]);
                    assert(lex_leq(x@, vs[pos as int]));
                    if j - 1 > pos {
                        assert(leq(vs[pos as int], vs[j - 1]));
                        lemma_lex_leq_trans(x@, vs[pos as int], vs[j - 1]);
                    }
                } else if i < pos && j > pos {
                    assert(s2[i] == vs[i] && s2[j] == vs[j - 1]);
                } else if i < j && j < pos {
                    assert(s2[i] == vs[i] && s2[j] == vs[j]);
                } else {
                    assert(s2[i] == vs[i - 1] && s2[j] == vs[j - 1]);
                }
            }
            assert(byte_views(r@.insert(pos as int, x)) =~= vs.insert(pos as int, x@));
        }
        let ghost vs0 = byte_views(r@);
        let ghost rest_ms = byte_views(rest@).to_multiset();
        r.insert(pos, x);
        proof {
            assert(byte_views(r@) == vs0.insert(pos as int, x@));
            vstd::seq_lib::to_multiset_insert(vs0, pos as int, x@);
            assert(vs0.insert(pos as int, x@).to_multiset() == vs0.to_multiset().insert(x@));
            assert(rest_ms.add(vs0.to_multiset().insert(x@)) =~= rest_ms.insert(x@).add(
                vs0.to_multiset(),
            ));
        }
    }
    proof {
        let leq = lex_leq_fn();
        assert(byte_views(rest@).len() == 0);
        assert(byte_views(rest@).to_multiset().len() == 0);
        assert(byte_views(rest@).to_multiset() =~= Multiset::<Seq<u8>>::empty());
        assert(byte_views(r@).to_multiset() =~= orig.to_multiset());
        lemma_lex_leq_total_ordering();
        orig.lemma_sort_by_ensures(leq);
        vstd::seq_lib::lemma_sorted_unique(byte_views(r@), orig.sort_by(leq), leq);
    }
    r
}

/// `a` comes strictly before `b` in byte-wise lexicographic order.
pub open spec fn lex_lt(a: Seq<u8>, b: Seq<u8>) -> bool {
    lex_leq(a, b) && a != b
}

pub proof fn lemma_lex_lt_trans(a: Seq<u8>, b: Seq<u8>, c: Seq<u8>)
    requires
        lex_lt(a, b),
        lex_lt(b, c),
    ensures
        lex_lt(a, c),
{
    lemma_lex_leq_trans(a, b, c);
    if a == c {
        lemma_lex_leq_antisym(a, b);
    }
}

pub proof fn lemma_lex_lt_total(a: Seq<u8>, b: Seq<u8>)
    requires
        a != b,
    ensures
        lex_lt(a, b) || lex_lt(b, a),
{
    lemma_lex_leq_total(a, b);
}

/// Strict byte-wise lexicographic comparison of two byte slices.
pub fn bytes_lt(a: &[u8], b: &[u8]) -> (r: bool)
    ensures
        r == lex_lt(a@, b@),
{
    let le = bytes_leq(a, b);
    let eq = bytes_eq(a, b);
    le && !eq
}

/// Equality of two byte slices, by their contents.
pub fn bytes_eq(a: &[u8], b: &[u8]) -> (r: bool)
    ensures
        r == (a@ == b@),
{
    let le = bytes_leq(a, b);
    let ge = bytes_leq(b, a);
    proof {
        if le && ge {
            lemma_lex_leq_antisym(a@, b@);
        }
        if a@ == b@ {
            lemma_lex_leq_refl(a@);
        }
    }
    le && ge
}

} // verus!
