//! Deterministic ordering of named values.
//!
//! The walk pairs every route and every child directory with the entry name it
//! came from and keeps the pairs sorted strictly ascending by name.  This
//! module holds the sorted-insertion spec function the walk is specified with,
//! the facts that make it deterministic — insertion keeps the multiset, keeps
//! strict sortedness, and a strictly sorted sequence is the only arrangement
//! of its multiset — and the multiset image of a filtered, mapped listing,
//! which does not depend on the listing's order.

use vstd::prelude::*;
use vstd::multiset::Multiset;
use vstd::seq_lib::group_to_multiset_ensures;
use vstd::seq_lib::lemma_multiset_commutative;
use crate::bytes::lex_lt;
use crate::bytes::lemma_lex_lt_asymmetric;
use crate::bytes::lemma_lex_lt_connected;
use crate::bytes::lemma_lex_lt_transitive;

verus! {

/// The pairs are sorted strictly ascending by name.
pub open spec fn sorted_pairs<T>(s: Seq<(Seq<u8>, T)>) -> bool {
    forall|i: int, j: int| 0 <= i < j < s.len() ==> lex_lt(s[i].0, s[j].0)
}

/// No pair of `s` carries the name `name`.
pub open spec fn name_fresh<T>(s: Seq<(Seq<u8>, T)>, name: Seq<u8>) -> bool {
    forall|i: int| 0 <= i < s.len() ==> s[i].0 != name
}

/// `p` inserted into `s` before the first pair whose name orders after it.
pub open spec fn insert_pair<T>(s: Seq<(Seq<u8>, T)>, p: (Seq<u8>, T)) -> Seq<(Seq<u8>, T)>
    decreases s.len(),
{
    if s.len() == 0 {
        seq![p]
    } else if lex_lt(p.0, s[0].0) {
        seq![p] + s
    } else {
        seq![s[0]] + insert_pair(s.drop_first(), p)
    }
}

/// The index in front of which `insert_pair` places `p`.
proof fn insertion_point<T>(s: Seq<(Seq<u8>, T)>, p: (Seq<u8>, T)) -> (j: int)
    ensures
        0 <= j <= s.len(),
        forall|k: int| 0 <= k < j ==> !lex_lt(p.0, s[k].0),
        j < s.len() ==> lex_lt(p.0, s[j].0),
    decreases s.len(),
{
    if s.len() == 0 {
        0
    } else if lex_lt(p.0, s[0].0) {
        0
    } else {
        let j = insertion_point(s.drop_first(), p) + 1;
        assert forall|k: int| 0 <= k < j implies !lex_lt(p.0, s[k].0) by {
            if k > 0 {
                assert(s.drop_first()[k - 1] == s[k]);
            }
        }
        j
    }
}

/// `insert_pair` splices `p` in at its insertion point.
proof fn lemma_insert_pair_split<T>(s: Seq<(Seq<u8>, T)>, p: (Seq<u8>, T), j: int)
    requires
        0 <= j <= s.len(),
        forall|k: int| 0 <= k < j ==> !lex_lt(p.0, s[k].0),
        j < s.len() ==> lex_lt(p.0, s[j].0),
    ensures
        insert_pair(s, p) == s.take(j) + seq![p] + s.skip(j),
    decreases s.len(),
{
    if s.len() == 0 {
        assert(insert_pair(s, p) =~= s.take(j) + seq![p] + s.skip(j));
    } else if lex_lt(p.0, s[0].0) {
        assert(j == 0);
        assert(seq![p] + s =~= s.take(0) + seq![p] + s.skip(0));
    } else {
        assert(j >= 1);
        let t = s.drop_first();
        assert forall|k: int| 0 <= k < j - 1 implies !lex_lt(p.0, t[k].0) by {
            assert(t[k] == s[k + 1]);
        }
        lemma_insert_pair_split(t, p, j - 1);
        assert(seq![s[0]] + (t.take(j - 1) + seq![p] + t.skip(j - 1)) =~= s.take(j) + seq![p]
            + s.skip(j));
    }
}

/// Insertion adds exactly `p` to the multiset of pairs.
pub proof fn lemma_insert_pair_multiset<T>(s: Seq<(Seq<u8>, T)>, p: (Seq<u8>, T))
    ensures
        insert_pair(s, p).to_multiset() == s.to_multiset().insert(p),
{
    broadcast use vstd::multiset::group_multiset_axioms;
    broadcast use group_to_multiset_ensures;

    let j = insertion_point(s, p);
    lemma_insert_pair_split(s, p, j);
    let a = s.take(j);
    let b = s.skip(j);
    lemma_multiset_commutative(a + seq![p], b);
    lemma_multiset_commutative(a, seq![p]);
    lemma_multiset_commutative(a, b);
    assert(a + b =~= s);
    assert(seq![p] =~= Seq::<(Seq<u8>, T)>::empty().push(p));
    assert(Seq::<(Seq<u8>, T)>::empty().push(p).to_multiset() =~= Seq::<(
        Seq<u8>,
        T,
    )>::empty().to_multiset().insert(p));
    assert(Seq::<(Seq<u8>, T)>::empty().to_multiset() =~= Multiset::<(Seq<u8>, T)>::empty());
    assert(insert_pair(s, p).to_multiset() =~= s.to_multiset().insert(p));
}

/// Insertion under a fresh name keeps the pairs strictly sorted.
pub proof fn lemma_insert_pair_sorted<T>(s: Seq<(Seq<u8>, T)>, p: (Seq<u8>, T))
    requires
        sorted_pairs(s),
        name_fresh(s, p.0),
    ensures
        sorted_pairs(insert_pair(s, p)),
{
    let j = insertion_point(s, p);
    lemma_insert_pair_split(s, p, j);
    let r = s.take(j) + seq![p] + s.skip(j);
    assert forall|x: int, y: int| 0 <= x < y < r.len() implies lex_lt(r[x].0, r[y].0) by {
        if x < j {
            assert(r[x] == s[x]);
        }
        if y > j {
            assert(r[y] == s[y - 1]);
        }
        if x < j && y == j {
            if !lex_lt(s[x].0, p.0) {
                lemma_lex_lt_connected(p.0, s[x].0);
                assert(s[x].0 == p.0);
                assert(false);
            }
        } else if x == j && y > j {
            assert(lex_lt(p.0, s[j].0));
            if j < y - 1 {
                lemma_lex_lt_transitive(p.0, s[j].0, s[y - 1].0);
            }
        } else if x < j && y > j {
            assert(x < y - 1);
            assert(lex_lt(s[x].0, s[y - 1].0));
        }
    }
    assert(sorted_pairs(r));
}

/// Insertion adds one pair; every pair of the result is `p` or one of `s`.
pub proof fn lemma_insert_pair_membership<T>(s: Seq<(Seq<u8>, T)>, p: (Seq<u8>, T))
    ensures
        insert_pair(s, p).len() == s.len() + 1,
        forall|k: int|
            0 <= k < insert_pair(s, p).len() ==> (insert_pair(s, p)[k] == p || s.contains(
                #[trigger] insert_pair(s, p)[k],
            )),
{
    let j = insertion_point(s, p);
    lemma_insert_pair_split(s, p, j);
    let r = insert_pair(s, p);
    assert forall|k: int| 0 <= k < r.len() implies (r[k] == p || s.contains(r[k])) by {
        if k < j {
            assert(r[k] == s[k]);
        } else if k > j {
            assert(r[k] == s[k - 1]);
        }
    }
}

/// A listing position that maps to a pair puts that pair into the image.
pub proof fn lemma_filter_map_mset_member<A, B>(s: Seq<A>, f: spec_fn(A) -> Option<B>, i: int)
    requires
        0 <= i < s.len(),
        f(s[i]) is Some,
    ensures
        filter_map_mset(s, f).contains(f(s[i])->Some_0),
    decreases s.len(),
{
    broadcast use vstd::multiset::group_multiset_axioms;

    if i == s.len() - 1 {
        assert(s.last() == s[i]);
    } else {
        lemma_filter_map_mset_member(s.drop_last(), f, i);
        assert(s.drop_last()[i] == s[i]);
    }
}

/// A strictly sorted pair sequence is determined by its multiset: two sorted
/// arrangements of the same pairs are the same sequence.
pub proof fn lemma_sorted_pairs_unique<T>(x: Seq<(Seq<u8>, T)>, y: Seq<(Seq<u8>, T)>)
    requires
        sorted_pairs(x),
        sorted_pairs(y),
        x.to_multiset() == y.to_multiset(),
    ensures
        x == y,
    decreases x.len(),
{
    broadcast use vstd::multiset::group_multiset_axioms;
    broadcast use group_to_multiset_ensures;

    if x.len() == 0 {
        assert(y.to_multiset().len() == 0);
        assert(x =~= y);
    } else {
        assert(y.to_multiset().len() == x.len());
        assert(x.to_multiset().contains(x[0]));
        assert(y.to_multiset().contains(y[0]));
        assert(y.contains(x[0]));
        assert(x.contains(y[0]));
        let i = choose|i: int| 0 <= i < y.len() && y[i] == x[0];
        let k = choose|k: int| 0 <= k < x.len() && x[k] == y[0];
        if i > 0 && k > 0 {
            assert(lex_lt(y[0].0, y[i].0));
            assert(lex_lt(x[0].0, x[k].0));
            lemma_lex_lt_asymmetric(x[0].0, y[0].0);
            assert(false);
        }
        assert(x[0] == y[0]);
        assert(x.remove(0).to_multiset() =~= x.to_multiset().remove(x[0]));
        assert(y.remove(0).to_multiset() =~= y.to_multiset().remove(y[0]));
        assert(x.drop_first() =~= x.remove(0));
        assert(y.drop_first() =~= y.remove(0));
        lemma_sorted_pairs_unique(x.drop_first(), y.drop_first());
        assert(x =~= Seq::<(Seq<u8>, T)>::empty().push(x[0]) + x.drop_first());
        assert(y =~= Seq::<(Seq<u8>, T)>::empty().push(y[0]) + y.drop_first());
    }
}

/// The multiset image of a listing under a filtering map: which pairs come out
/// of a directory listing, with multiplicity, ignoring order.
pub open spec fn filter_map_mset<A, B>(s: Seq<A>, f: spec_fn(A) -> Option<B>) -> Multiset<B>
    decreases s.len(),
{
    if s.len() == 0 {
        Multiset::empty()
    } else {
        let prev = filter_map_mset(s.drop_last(), f);
        match f(s.last()) {
            Some(p) => prev.insert(p),
            None => prev,
        }
    }
}

/// The image of a one-entry listing.
pub proof fn lemma_filter_map_mset_singleton<A, B>(x: A, f: spec_fn(A) -> Option<B>)
    ensures
        filter_map_mset(seq![x], f) == match f(x) {
            Some(p) => Multiset::<B>::empty().insert(p),
            None => Multiset::<B>::empty(),
        },
{
    assert(seq![x].drop_last() =~= Seq::<A>::empty());
    assert(filter_map_mset(Seq::<A>::empty(), f) == Multiset::<B>::empty());
    assert(seq![x].last() == x);
}

/// `filter_map_mset` distributes over concatenation.
pub proof fn lemma_filter_map_mset_concat<A, B>(a: Seq<A>, b: Seq<A>, f: spec_fn(A) -> Option<B>)
    ensures
        filter_map_mset(a + b, f) == filter_map_mset(a, f).add(filter_map_mset(b, f)),
    decreases b.len(),
{
    broadcast use vstd::multiset::group_multiset_axioms;

    if b.len() == 0 {
        assert(a + b =~= a);
        assert(filter_map_mset(a, f).add(Multiset::empty()) =~= filter_map_mset(a, f));
    } else {
        lemma_filter_map_mset_concat(a, b.drop_last(), f);
        assert((a + b).drop_last() =~= a + b.drop_last());
        assert((a + b).last() == b.last());
        match f(b.last()) {
            Some(p) => {
                assert(filter_map_mset(a + b, f) =~= filter_map_mset(a, f).add(
                    filter_map_mset(b, f),
                ));
            },
            None => {},
        }
    }
}

/// The multiset image ignores the listing's order: permuted listings have the
/// same image.
pub proof fn lemma_filter_map_mset_permutation<A, B>(
    e1: Seq<A>,
    e2: Seq<A>,
    f: spec_fn(A) -> Option<B>,
)
    requires
        e1.to_multiset() == e2.to_multiset(),
    ensures
        filter_map_mset(e1, f) == filter_map_mset(e2, f),
    decreases e1.len(),
{
    broadcast use vstd::multiset::group_multiset_axioms;
    broadcast use group_to_multiset_ensures;

    if e1.len() == 0 {
        assert(e2.to_multiset().len() == 0);
        assert(e2 =~= Seq::<A>::empty());
        assert(e1 =~= Seq::<A>::empty());
    } else {
        let x = e1.last();
        assert(e1.to_multiset().contains(x));
        assert(e2.contains(x));
        let j = choose|j: int| 0 <= j < e2.len() && e2[j] == x;
        assert(e1.drop_last() =~= e1.remove(e1.len() - 1));
        assert(e1.remove(e1.len() - 1).to_multiset() =~= e1.to_multiset().remove(x));
        assert(e2.remove(j).to_multiset() =~= e2.to_multiset().remove(x));
        lemma_filter_map_mset_permutation(e1.drop_last(), e2.remove(j), f);
        // Split e2 around position j and recombine its image.
        let a = e2.take(j);
        let b = e2.skip(j + 1);
        assert(e2 =~= a + (seq![x] + b));
        assert(e2.remove(j) =~= a + b);
        lemma_filter_map_mset_concat(a, seq![x] + b, f);
        lemma_filter_map_mset_concat(a, b, f);
        lemma_filter_map_mset_concat(seq![x], b, f);
        lemma_filter_map_mset_singleton(x, f);
        match f(x) {
            Some(p) => {
                assert(filter_map_mset(seq![x], f) =~= Multiset::<B>::empty().insert(p));
                assert(filter_map_mset(e1, f) =~= filter_map_mset(e1.drop_last(), f).insert(p));
                assert(filter_map_mset(e2, f) =~= filter_map_mset(e2.remove(j), f).insert(p));
            },
            None => {
                assert(filter_map_mset(seq![x], f) =~= Multiset::<B>::empty());
                assert(filter_map_mset(e1, f) =~= filter_map_mset(e1.drop_last(), f));
                assert(filter_map_mset(e2, f) =~= filter_map_mset(e2.remove(j), f));
            },
        }
    }
}

} // verus!
