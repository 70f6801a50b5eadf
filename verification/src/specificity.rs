//! Specificity: the precedence ranking of a route.
//!
//! A route's specificity records, for every dynamic or catch-all segment on
//! the way from the pages root to the route, the tree depth (`position`) at
//! which it occurs and whether it is a single dynamic segment (`[name]`) or a
//! catch-all (`[...name]` / `[[...name]]`).  Routes with no marker at all
//! (exact routes) rank above every route with markers; among marked routes a
//! deeper marker ranks above a shallower one, and at equal depth a dynamic
//! segment ranks above a catch-all.  The order is total, so consumers can use
//! it to break ties between patterns matching the same URL.

use vstd::prelude::*;

verus! {

/// The kind of a dynamic path-segment marker.
#[derive(Clone, Copy, PartialEq, Eq, Structural, Debug)]
pub enum MarkerKind {
    /// A single dynamic segment, `[name]`.
    Dynamic,
    /// A catch-all segment, `[...name]` or `[[...name]]`.
    CatchAll,
}

/// One dynamic or catch-all marker, at the tree depth where it occurs.
#[derive(Clone, Copy, PartialEq, Eq, Structural, Debug)]
pub struct SpecificityElement {
    pub position: u32,
    pub kind: MarkerKind,
}

/// The specificity of a route: its markers, in the order they were added
/// while walking down from the pages root.
pub struct Specificity {
    pub elements: Vec<SpecificityElement>,
}

impl View for Specificity {
    type V = Seq<SpecificityElement>;

    open spec fn view(&self) -> Seq<SpecificityElement> {
        self.elements@
    }
}

/// A dynamic-segment marker at `position`.
pub open spec fn dynamic_marker(position: u32) -> SpecificityElement {
    SpecificityElement { position, kind: MarkerKind::Dynamic }
}

/// A catch-all marker at `position`.
pub open spec fn catch_all_marker(position: u32) -> SpecificityElement {
    SpecificityElement { position, kind: MarkerKind::CatchAll }
}

/// Marker `a` ranks strictly below marker `b`: it is shallower, or equally
/// deep but catch-all where `b` is a single dynamic segment.
pub open spec fn marker_lt(a: SpecificityElement, b: SpecificityElement) -> bool {
    a.position < b.position
        || (a.position == b.position && a.kind == MarkerKind::CatchAll && b.kind
            == MarkerKind::Dynamic)
}

/// Specificity `a` is strictly less specific than `b`.  Marker lists are
/// compared element by element; running out of markers first means more
/// specific, so the exact specificity (no markers) is the greatest of all.
pub open spec fn spec_lt(a: Seq<SpecificityElement>, b: Seq<SpecificityElement>) -> bool
    decreases a.len(),
{
    if b.len() == 0 {
        a.len() > 0
    } else if a.len() == 0 {
        false
    } else if marker_lt(a[0], b[0]) {
        true
    } else if marker_lt(b[0], a[0]) {
        false
    } else {
        spec_lt(a.drop_first(), b.drop_first())
    }
}

/// `spec_lt` never holds of a specificity and itself.
pub proof fn lemma_spec_lt_irreflexive(a: Seq<SpecificityElement>)
    ensures
        !spec_lt(a, a),
    decreases a.len(),
{
    if a.len() > 0 {
        lemma_spec_lt_irreflexive(a.drop_first());
    }
}

/// At most one direction of `spec_lt` holds of a pair of specificities.
pub proof fn lemma_spec_lt_asymmetric(a: Seq<SpecificityElement>, b: Seq<SpecificityElement>)
    ensures
        !(spec_lt(a, b) && spec_lt(b, a)),
    decreases a.len(),
{
    if a.len() > 0 && b.len() > 0 && !marker_lt(a[0], b[0]) && !marker_lt(b[0], a[0]) {
        lemma_spec_lt_asymmetric(a.drop_first(), b.drop_first());
    }
}

/// Specificities not ordered by `spec_lt` in either direction are equal:
/// together with asymmetry and transitivity, the order is total.
pub proof fn lemma_spec_lt_connected(a: Seq<SpecificityElement>, b: Seq<SpecificityElement>)
    requires
        !spec_lt(a, b),
        !spec_lt(b, a),
    ensures
        a == b,
    decreases a.len(),
{
    if a.len() == 0 || b.len() == 0 {
        assert(a =~= b);
    } else {
        lemma_spec_lt_connected(a.drop_first(), b.drop_first());
        assert(a =~= seq![a[0]] + a.drop_first());
        assert(b =~= seq![b[0]] + b.drop_first());
    }
}

/// `spec_lt` is transitive.
pub proof fn lemma_spec_lt_transitive(
    a: Seq<SpecificityElement>,
    b: Seq<SpecificityElement>,
    c: Seq<SpecificityElement>,
)
    requires
        spec_lt(a, b),
        spec_lt(b, c),
    ensures
        spec_lt(a, c),
    decreases a.len(),
{
    if a.len() > 0 && b.len() > 0 && c.len() > 0 && !marker_lt(a[0], b[0]) && !marker_lt(b[0], a[0])
        && !marker_lt(b[0], c[0]) && !marker_lt(c[0], b[0]) {
        lemma_spec_lt_transitive(a.drop_first(), b.drop_first(), c.drop_first());
    }
}

/// `spec_lt` over a shared leading marker list reduces to `spec_lt` of the
/// remainders.
pub proof fn lemma_spec_lt_common_prefix(
    x: Seq<SpecificityElement>,
    a: Seq<SpecificityElement>,
    b: Seq<SpecificityElement>,
)
    ensures
        spec_lt(x + a, x + b) == spec_lt(a, b),
    decreases x.len(),
{
    if x.len() == 0 {
        assert(x + a =~= a);
        assert(x + b =~= b);
    } else {
        lemma_spec_lt_common_prefix(x.drop_first(), a, b);
        assert((x + a).drop_first() =~= x.drop_first() + a);
        assert((x + b).drop_first() =~= x.drop_first() + b);
    }
}

/// An exact-match specificity — no markers at all — is preferred over every
/// specificity that carries a dynamic or catch-all marker, whatever depth the
/// markers sit at.
pub proof fn lemma_exact_most_specific(a: Seq<SpecificityElement>)
    requires
        a.len() > 0,
    ensures
        spec_lt(a, Seq::<SpecificityElement>::empty()),
        !spec_lt(Seq::<SpecificityElement>::empty(), a),
{
}

/// A dynamic segment at a given depth is strictly more specific than a
/// catch-all at the same depth, and any marker makes a route strictly less
/// specific than its unmarked (inherited) specificity — whatever markers the
/// route carries already.
pub proof fn lemma_marker_order(base: Seq<SpecificityElement>, position: u32)
    ensures
        spec_lt(base.push(catch_all_marker(position)), base.push(dynamic_marker(position))),
        spec_lt(base.push(catch_all_marker(position)), base),
        spec_lt(base.push(dynamic_marker(position)), base),
{
    let c = seq![catch_all_marker(position)];
    let d = seq![dynamic_marker(position)];
    let e = Seq::<SpecificityElement>::empty();
    lemma_spec_lt_common_prefix(base, c, d);
    lemma_spec_lt_common_prefix(base, c, e);
    lemma_spec_lt_common_prefix(base, d, e);
    assert(base.push(catch_all_marker(position)) =~= base + c);
    assert(base.push(dynamic_marker(position)) =~= base + d);
    assert(base + e =~= base);
}

/// Copies a marker list.
fn clone_elements(v: &Vec<SpecificityElement>) -> (r: Vec<SpecificityElement>)
    ensures
        r@ == v@,
{
    let mut r: Vec<SpecificityElement> = Vec::new();
    let mut i: usize = 0;
    while i < v.len()
        invariant
            i <= v.len(),
            r@ =~= v@.subrange(0, i as int),
        decreases v.len() - i,
    {
        r.push(v[i]);
        proof {
            assert(r@ =~= v@.subrange(0, i + 1));
        }
        i = i + 1;
    }
    proof {
        assert(r@ =~= v@);
    }
    r
}

impl Specificity {
    /// The baseline specificity of a route with no dynamic segments.
    pub fn exact() -> (r: Self)
        ensures
            r@ == Seq::<SpecificityElement>::empty(),
    {
        Specificity { elements: Vec::new() }
    }

    /// A new specificity derived from this one with a single dynamic segment
    /// recorded at depth `position`; the receiver is left unchanged.
    pub fn with_dynamic_segment(&self, position: u32) -> (r: Self)
        ensures
            r@ == self@.push(dynamic_marker(position)),
    {
        let mut elements = clone_elements(&self.elements);
        elements.push(SpecificityElement { position, kind: MarkerKind::Dynamic });
        Specificity { elements }
    }

    /// A new specificity derived from this one with a catch-all segment
    /// recorded at depth `position`; the receiver is left unchanged.
    pub fn with_catch_all(&self, position: u32) -> (r: Self)
        ensures
            r@ == self@.push(catch_all_marker(position)),
    {
        let mut elements = clone_elements(&self.elements);
        elements.push(SpecificityElement { position, kind: MarkerKind::CatchAll });
        Specificity { elements }
    }

    /// Copies the specificity.
    pub fn duplicate(&self) -> (r: Self)
        ensures
            r@ == self@,
    {
        Specificity { elements: clone_elements(&self.elements) }
    }

    /// Decides whether this specificity ranks strictly below `other`.
    pub fn is_less_specific_than(&self, other: &Specificity) -> (r: bool)
        ensures
            r == spec_lt(self@, other@),
    {
        let a = &self.elements;
        let b = &other.elements;
        let mut i: usize = 0;
        proof {
            assert(a@.skip(0) =~= a@);
            assert(b@.skip(0) =~= b@);
        }
        loop
            invariant
                i <= a.len(),
                i <= b.len(),
                a@ == self@,
                b@ == other@,
                spec_lt(a@, b@) == spec_lt(a@.skip(i as int), b@.skip(i as int)),
            decreases a.len() - i,
        {
            if i == b.len() {
                return i < a.len();
            }
            if i == a.len() {
                return false;
            }
            let x = a[i];
            let y = b[i];
            let x_lt = x.position < y.position
                || (x.position == y.position && matches!(x.kind, MarkerKind::CatchAll)
                    && matches!(y.kind, MarkerKind::Dynamic));
            let y_lt = y.position < x.position
                || (y.position == x.position && matches!(y.kind, MarkerKind::CatchAll)
                    && matches!(x.kind, MarkerKind::Dynamic));
            if x_lt {
                return true;
            }
            if y_lt {
                return false;
            }
            proof {
                assert(a@.skip(i as int).drop_first() =~= a@.skip(i + 1));
                assert(b@.skip(i as int).drop_first() =~= b@.skip(i + 1));
            }
            i = i + 1;
        }
    }
}

} // verus!
