//! Byte-string primitives: lexicographic order, equality, prefix tests and
//! splitting a file name into basename and extension.
//!
//! Directory-entry names are byte strings (`Vec<u8>`); every sorting and
//! classification decision of the route walk reduces to the spec functions in
//! this module.

use vstd::prelude::*;

verus! {

/// Strict lexicographic (byte-wise) order on byte strings: `a` comes strictly
/// before `b`.  A proper prefix comes before every extension of it.
pub open spec fn lex_lt(a: Seq<u8>, b: Seq<u8>) -> bool
    decreases a.len(),
{
    if b.len() == 0 {
        false
    } else if a.len() == 0 {
        true
    } else if a[0] < b[0] {
        true
    } else if a[0] > b[0] {
        false
    } else {
        lex_lt(a.drop_first(), b.drop_first())
    }
}

/// At most one direction of `lex_lt` holds of a pair of strings.
pub proof fn lemma_lex_lt_asymmetric(a: Seq<u8>, b: Seq<u8>)
    ensures
        !(lex_lt(a, b) && lex_lt(b, a)),
    decreases a.len(),
{
    if a.len() > 0 && b.len() > 0 && a[0] == b[0] {
        lemma_lex_lt_asymmetric(a.drop_first(), b.drop_first());
    }
}

/// Strings not ordered by `lex_lt` in either direction are equal.
pub proof fn lemma_lex_lt_connected(a: Seq<u8>, b: Seq<u8>)
    requires
        !lex_lt(a, b),
        !lex_lt(b, a),
    ensures
        a == b,
    decreases a.len(),
{
    if a.len() == 0 || b.len() == 0 {
        assert(a =~= b);
    } else {
        lemma_lex_lt_connected(a.drop_first(), b.drop_first());
        assert(a =~= seq![a[0]] + a.drop_first());
        assert(b =~= seq![b[0]] + b.drop_first());
    }
}

/// `lex_lt` is transitive.
pub proof fn lemma_lex_lt_transitive(a: Seq<u8>, b: Seq<u8>, c: Seq<u8>)
    requires
        lex_lt(a, b),
        lex_lt(b, c),
    ensures
        lex_lt(a, c),
    decreases a.len(),
{
    if a.len() > 0 && b.len() > 0 && c.len() > 0 && a[0] == b[0] && b[0] == c[0] {
        lemma_lex_lt_transitive(a.drop_first(), b.drop_first(), c.drop_first());
    }
}

/// Decides `lex_lt` on byte vectors.
pub fn bytes_lt(a: &Vec<u8>, b: &Vec<u8>) -> (r: bool)
    ensures
        r == lex_lt(a@, b@),
{
    let mut i: usize = 0;
    proof {
        assert(a@.skip(0) =~= a@);
        assert(b@.skip(0) =~= b@);
    }
    loop
        invariant
            i <= a.len(),
            i <= b.len(),
            lex_lt(a@, b@) == lex_lt(a@.skip(i as int), b@.skip(i as int)),
        decreases a.len() - i,
    {
        if i == b.len() {
            return false;
        }
        if i == a.len() {
            return true;
        }
        if a[i] < b[i] {
            return true;
        }
        if a[i] > b[i] {
            return false;
        }
        proof {
            assert(a@.skip(i as int).drop_first() =~= a@.skip(i + 1));
            assert(b@.skip(i as int).drop_first() =~= b@.skip(i + 1));
        }
        i = i + 1;
    }
}

/// Decides equality of byte vectors, at the level of their views.
pub fn bytes_eq(a: &Vec<u8>, b: &Vec<u8>) -> (r: bool)
    ensures
        r == (a@ == b@),
{
    if a.len() != b.len() {
        return false;
    }
    let mut i: usize = 0;
    while i < a.len()
        invariant
            i <= a.len(),
            a.len() == b.len(),
            forall|j: int| 0 <= j < i ==> a@[j] == b@[j],
        decreases a.len() - i,
    {
        if a[i] != b[i] {
            return false;
        }
        i = i + 1;
    }
    proof {
        assert(a@ =~= b@);
    }
    true
}

/// `p` is a prefix of `a`.
pub open spec fn is_prefix(p: Seq<u8>, a: Seq<u8>) -> bool {
    p.len() <= a.len() && p =~= a.subrange(0, p.len() as int)
}

/// Copies the byte range `start..end` of `v` into a fresh vector.
pub fn copy_range(v: &Vec<u8>, start: usize, end: usize) -> (r: Vec<u8>)
    requires
        start <= end <= v@.len(),
    ensures
        r@ == v@.subrange(start as int, end as int),
{
    let mut r: Vec<u8> = Vec::new();
    let mut i: usize = start;
    while i < end
        invariant
            start <= i <= end <= v@.len(),
            r@ =~= v@.subrange(start as int, i as int),
        decreases end - i,
    {
        r.push(v[i]);
        proof {
            assert(r@ =~= v@.subrange(start as int, i + 1));
        }
        i = i + 1;
    }
    proof {
        assert(r@ =~= v@.subrange(start as int, end as int));
    }
    r
}

/// Copies a byte vector.
pub fn clone_bytes(v: &Vec<u8>) -> (r: Vec<u8>)
    ensures
        r@ == v@,
{
    let r = copy_range(v, 0, v.len());
    proof {
        assert(v@.subrange(0, v@.len() as int) =~= v@);
    }
    r
}

/// Splits a file name at its last `.`: `Some((basename, extension))`, where
/// neither part contains that final dot; `None` if the name has no dot at all.
pub open spec fn spec_split_extension(name: Seq<u8>) -> Option<(Seq<u8>, Seq<u8>)>
    decreases name.len(),
{
    if name.len() == 0 {
        None
    } else if name.last() == 46u8 {
        Some((name.drop_last(), Seq::empty()))
    } else {
        match spec_split_extension(name.drop_last()) {
            None => None,
            Some((base, ext)) => Some((base, ext.push(name.last()))),
        }
    }
}

/// A name without any dot splits to `None`.
proof fn lemma_split_extension_none(name: Seq<u8>)
    requires
        forall|j: int| 0 <= j < name.len() ==> name[j] != 46u8,
    ensures
        spec_split_extension(name) is None,
    decreases name.len(),
{
    if name.len() > 0 {
        lemma_split_extension_none(name.drop_last());
    }
}

/// If position `i` holds the last dot of `name`, the split cuts exactly there.
proof fn lemma_split_extension_at(name: Seq<u8>, i: int)
    requires
        0 <= i < name.len(),
        name[i] == 46u8,
        forall|j: int| i < j < name.len() ==> name[j] != 46u8,
    ensures
        spec_split_extension(name) == Some(
            (name.subrange(0, i), name.subrange(i + 1, name.len() as int)),
        ),
    decreases name.len(),
{
    if i == name.len() - 1 {
        assert(name.drop_last() =~= name.subrange(0, i));
        assert(name.subrange(i + 1, name.len() as int) =~= Seq::<u8>::empty());
    } else {
        lemma_split_extension_at(name.drop_last(), i);
        assert(name.drop_last().subrange(0, i) =~= name.subrange(0, i));
        let tail = name.drop_last().subrange(i + 1, name.len() - 1).push(name.last());
        assert(tail =~= name.subrange(i + 1, name.len() as int));
    }
}

/// Splits a file name at its last dot into `(basename, extension)`.
pub fn split_extension(name: &Vec<u8>) -> (r: Option<(Vec<u8>, Vec<u8>)>)
    ensures
        match r {
            Some(p) => spec_split_extension(name@) == Some((p.0@, p.1@)),
            None => spec_split_extension(name@) is None,
        },
{
    let mut i: usize = name.len();
    loop
        invariant
            i <= name.len(),
            forall|j: int| i <= j < name.len() ==> name@[j] != 46u8,
        decreases i,
    {
        if i == 0 {
            proof {
                lemma_split_extension_none(name@);
            }
            return None;
        }
        i = i - 1;
        if name[i] == 46u8 {
            let base = copy_range(name, 0, i);
            let ext = copy_range(name, i + 1, name.len());
            proof {
                lemma_split_extension_at(name@, i as int);
            }
            return Some((base, ext));
        }
    }
}

/// The extension `ext` is one of the allowed page extensions `exts`.
pub open spec fn spec_ext_allowed(exts: Seq<Seq<u8>>, ext: Seq<u8>) -> bool {
    exists|i: int| 0 <= i < exts.len() && exts[i] == ext
}

/// Decides whether `ext` occurs in the allowed-extension list.
pub fn ext_allowed(exts: &Vec<Vec<u8>>, ext: &Vec<u8>) -> (r: bool)
    ensures
        r == spec_ext_allowed(exts.deep_view(), ext@),
{
    let mut i: usize = 0;
    while i < exts.len()
        invariant
            i <= exts.len(),
            forall|j: int| 0 <= j < i ==> exts.deep_view()[j] != ext@,
        decreases exts.len() - i,
    {
        let hit = bytes_eq(&exts[i], ext);
        proof {
            assert(exts.deep_view()[i as int] == exts@[i as int]@);
        }
        if hit {
            return true;
        }
        i = i + 1;
    }
    false
}

} // verus!
