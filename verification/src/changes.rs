//! Change propagation over the route tree.
//!
//! Asking a node for its change signal observes the router path of every
//! route in its subtree — visiting every item and every child, recursively —
//! and yields a content-free `Completion` token.  The caching of such an
//! observation lives in an explicit `ChangeTracker`, standing in for one
//! memoized unit of the incremental-computation substrate: it remembers the
//! dependency sequence last observed and hands the same token back as long as
//! that sequence has not changed, and a fresh token as soon as it has.
//! Comparing two tokens is therefore exactly the question "did the observed
//! dependencies change between the two observations?".

use vstd::prelude::*;
use crate::paths::FsPath;
use crate::structure::ItemModel;
use crate::structure::OptionPagesStructure;
use crate::structure::PagesStructure;
use crate::structure::PagesStructureItem;
use crate::structure::StructureModel;
use crate::structure::lemma_children_models;
use crate::structure::structure_model;

verus! {

/// The dependencies one route item contributes: its router path.
pub open spec fn item_deps(m: ItemModel) -> Seq<Seq<Seq<u8>>> {
    seq![m.next_router_path]
}

/// The dependencies of the first `i` items of a node, in order.
pub open spec fn items_deps(items: Seq<ItemModel>, i: int) -> Seq<Seq<Seq<u8>>>
    decreases i,
{
    if i <= 0 || i > items.len() {
        Seq::empty()
    } else {
        items_deps(items, i - 1) + item_deps(items[i - 1])
    }
}

/// The dependencies of the first `i` children of a node, in order.
pub open spec fn children_deps(m: StructureModel, i: int) -> Seq<Seq<Seq<u8>>>
    decreases m, i,
{
    if i <= 0 || i > m.children.len() {
        Seq::empty()
    } else {
        children_deps(m, i - 1) + structure_deps(m.children[i - 1])
    }
}

/// Everything a node's change signal observes: the router path of each of its
/// own items, then each child's observations, recursively.
pub open spec fn structure_deps(m: StructureModel) -> Seq<Seq<Seq<u8>>>
    decreases m, m.children.len() + 1,
{
    items_deps(m.items, m.items.len() as int) + children_deps(m, m.children.len() as int)
}

/// What the optional wrapper observes: nothing, when no pages root exists.
pub open spec fn option_deps(m: Option<StructureModel>) -> Seq<Seq<Seq<u8>>> {
    match m {
        Some(s) => structure_deps(s),
        None => Seq::empty(),
    }
}

/// The token an observation yields: the previous one if the observed
/// dependency sequence is unchanged, a fresh one otherwise.
pub open spec fn next_token(
    prev_deps: Seq<Seq<Seq<u8>>>,
    prev_token: u64,
    ds: Seq<Seq<Seq<u8>>>,
) -> u64 {
    if ds == prev_deps {
        prev_token
    } else {
        (prev_token + 1) as u64
    }
}

/// Observing the same dependencies again, with no change in between, yields
/// the token of the first observation: no new change is indicated.
pub proof fn lemma_signal_stable(prev_deps: Seq<Seq<Seq<u8>>>, prev_token: u64, ds: Seq<Seq<Seq<u8>>>)
    ensures
        next_token(ds, next_token(prev_deps, prev_token, ds), ds) == next_token(
            prev_deps,
            prev_token,
            ds,
        ),
{
}

/// An observation whose dependency sequence differs from the tracked one
/// yields a token different from the tracked one: the change is visible.
pub proof fn lemma_signal_detects_change(
    prev_deps: Seq<Seq<Seq<u8>>>,
    prev_token: u64,
    ds: Seq<Seq<Seq<u8>>>,
)
    requires
        prev_token < u64::MAX,
        ds != prev_deps,
    ensures
        next_token(prev_deps, prev_token, ds) != prev_token,
{
}

/// A content-free change signal: it carries nothing but an identity, and
/// comparing identities answers "did anything observed change in between?".
#[derive(Clone, Copy)]
pub struct Completion {
    token: u64,
}

impl Completion {
    /// The token's identity.
    pub closed spec fn id(self) -> u64 {
        self.token
    }

    /// Two signals indicate no intervening change exactly when their
    /// identities agree.
    pub fn same_signal(&self, other: &Completion) -> (r: bool)
        ensures
            r == (self.id() == other.id()),
    {
        self.token == other.token
    }
}

/// One cached observation unit: the dependency sequence it saw last, and the
/// token it handed out for it.
pub struct ChangeTracker {
    observed: Vec<FsPath>,
    token: u64,
}

impl ChangeTracker {
    /// The dependency sequence observed last.
    pub closed spec fn deps(self) -> Seq<Seq<Seq<u8>>> {
        self.observed.deep_view()
    }

    /// The identity of the token handed out last.
    pub closed spec fn current(self) -> u64 {
        self.token
    }

    /// A tracker that has observed nothing yet.
    pub fn new() -> (r: Self)
        ensures
            r.deps() == Seq::<Seq<Seq<u8>>>::empty(),
            r.current() == 0,
    {
        let r = ChangeTracker { observed: Vec::new(), token: 0 };
        proof {
            assert(r.observed.deep_view() =~= Seq::<Seq<Seq<u8>>>::empty());
        }
        r
    }

    /// Records one observation: keeps the token while the dependencies are
    /// unchanged, moves to a fresh one when they differ.
    fn observe(&mut self, ds: Vec<FsPath>) -> (c: Completion)
        requires
            old(self).current() < u64::MAX,
        ensures
            final(self).deps() == ds.deep_view(),
            final(self).current() == next_token(old(self).deps(), old(self).current(), ds.deep_view()),
            c.id() == final(self).current(),
    {
        let same = paths_list_eq(&self.observed, &ds);
        if !same {
            self.token = self.token + 1;
        }
        self.observed = ds;
        Completion { token: self.token }
    }
}

/// Decides equality of two path lists, at the level of their deep views.
fn paths_list_eq(a: &Vec<FsPath>, b: &Vec<FsPath>) -> (r: bool)
    ensures
        r == (a.deep_view() == b.deep_view()),
{
    if a.len() != b.len() {
        proof {
            assert(a.deep_view().len() != b.deep_view().len());
        }
        return false;
    }
    let mut i: usize = 0;
    while i < a.len()
        invariant
            i <= a@.len(),
            a@.len() == b@.len(),
            forall|j: int| 0 <= j < i ==> a.deep_view()[j] == b.deep_view()[j],
        decreases a@.len() - i,
    {
        let same = path_eq(&a[i], &b[i]);
        proof {
            assert(a.deep_view()[i as int] == a@[i as int]@);
            assert(b.deep_view()[i as int] == b@[i as int]@);
        }
        if !same {
            return false;
        }
        i = i + 1;
    }
    proof {
        assert(a.deep_view() =~= b.deep_view());
    }
    true
}

/// Decides equality of two paths, at the level of their views.
fn path_eq(a: &FsPath, b: &FsPath) -> (r: bool)
    ensures
        r == (a@ == b@),
{
    if a.segments.len() != b.segments.len() {
        proof {
            assert(a@.len() == a.segments@.len());
            assert(b@.len() == b.segments@.len());
        }
        return false;
    }
    let mut i: usize = 0;
    while i < a.segments.len()
        invariant
            i <= a.segments@.len(),
            a.segments@.len() == b.segments@.len(),
            forall|j: int| 0 <= j < i ==> a@[j] == b@[j],
        decreases a.segments@.len() - i,
    {
        let same = crate::bytes::bytes_eq(&a.segments[i], &b.segments[i]);
        proof {
            assert(a@[i as int] == a.segments@[i as int]@);
            assert(b@[i as int] == b.segments@[i as int]@);
        }
        if !same {
            return false;
        }
        i = i + 1;
    }
    proof {
        assert(a@ =~= b@);
    }
    true
}

/// Appending one path to a dependency list appends its view to the deep view.
proof fn lemma_deps_push(pre: Vec<FsPath>, post: Vec<FsPath>, p: FsPath)
    requires
        post@ == pre@.push(p),
    ensures
        post.deep_view() == pre.deep_view().push(p@),
{
    assert(post.deep_view() =~= pre.deep_view().push(p@));
}

/// Collects the router path of every route in the subtree, in observation
/// order: the node's own items first, then each child in order, recursively.
fn collect_structure_deps(s: &PagesStructure, out: &mut Vec<FsPath>)
    ensures
        final(out).deep_view() == old(out).deep_view() + structure_deps(structure_model(*s)),
    decreases *s,
{
    let ghost m = structure_model(*s);
    let ghost base = old(out).deep_view();
    let mut i: usize = 0;
    proof {
        lemma_children_models(*s, s.children@.len() as int);
        assert(base + items_deps(m.items, 0) =~= base);
    }
    while i < s.items.len()
        invariant
            i <= s.items@.len(),
            m == structure_model(*s),
            m.items.len() == s.items@.len(),
            base == old(out).deep_view(),
            out.deep_view() == base + items_deps(m.items, i as int),
        decreases s.items@.len() - i,
    {
        let ghost pre = *out;
        let p = s.items[i].next_router_path().duplicate();
        out.push(p);
        proof {
            lemma_deps_push(pre, *out, p);
            assert(m.items[i as int] == s.items@[i as int]@);
            assert(base + items_deps(m.items, i + 1) =~= (base + items_deps(m.items, i as int)).push(
                s.items@[i as int]@.next_router_path,
            ));
        }
        i = i + 1;
    }
    let mut j: usize = 0;
    proof {
        assert(children_deps(m, 0) =~= Seq::<Seq<Seq<u8>>>::empty());
        assert(base + items_deps(m.items, m.items.len() as int) + children_deps(m, 0) =~= base
            + items_deps(m.items, m.items.len() as int));
    }
    while j < s.children.len()
        invariant
            j <= s.children@.len(),
            m == structure_model(*s),
            m.children.len() == s.children@.len(),
            base == old(out).deep_view(),
            out.deep_view() == base + items_deps(m.items, m.items.len() as int) + children_deps(
                m,
                j as int,
            ),
        decreases s.children@.len() - j,
    {
        collect_structure_deps(&s.children[j], out);
        proof {
            lemma_children_models(*s, s.children@.len() as int);
            assert(m.children[j as int] == structure_model(s.children@[j as int]));
            assert(base + items_deps(m.items, m.items.len() as int) + children_deps(m, j + 1)
                =~= base + items_deps(m.items, m.items.len() as int) + children_deps(m, j as int)
                + structure_deps(m.children[j as int]));
        }
        j = j + 1;
    }
    proof {
        assert(base + structure_deps(m) =~= base + items_deps(m.items, m.items.len() as int)
            + children_deps(m, m.children.len() as int));
    }
}

impl PagesStructureItem {
    /// Returns a completion that changes when the route's router path
    /// changes: the tracker observes exactly that path.
    pub fn routes_changed(&self, tracker: &mut ChangeTracker) -> (c: Completion)
        requires
            old(tracker).current() < u64::MAX,
        ensures
            final(tracker).deps() == item_deps(self@),
            final(tracker).current() == next_token(
                old(tracker).deps(),
                old(tracker).current(),
                item_deps(self@),
            ),
            c.id() == final(tracker).current(),
    {
        let mut ds: Vec<FsPath> = Vec::new();
        let ghost pre = ds;
        let p = self.next_router_path().duplicate();
        ds.push(p);
        proof {
            lemma_deps_push(pre, ds, p);
            assert(pre.deep_view() =~= Seq::<Seq<Seq<u8>>>::empty());
            assert(ds.deep_view() =~= item_deps(self@));
        }
        tracker.observe(ds)
    }
}

impl PagesStructure {
    /// Returns a completion that changes when any route anywhere in this
    /// subtree changes: the tracker observes every router path in it.
    pub fn routes_changed(&self, tracker: &mut ChangeTracker) -> (c: Completion)
        requires
            old(tracker).current() < u64::MAX,
        ensures
            final(tracker).deps() == structure_deps(self@),
            final(tracker).current() == next_token(
                old(tracker).deps(),
                old(tracker).current(),
                structure_deps(self@),
            ),
            c.id() == final(tracker).current(),
    {
        let mut ds: Vec<FsPath> = Vec::new();
        let ghost pre = ds;
        collect_structure_deps(self, &mut ds);
        proof {
            assert(pre.deep_view() =~= Seq::<Seq<Seq<u8>>>::empty());
            assert(ds.deep_view() =~= structure_deps(self@));
        }
        tracker.observe(ds)
    }
}

impl OptionPagesStructure {
    /// Returns a completion that changes when any route changes; with no
    /// pages root there is nothing to observe and no change to indicate.
    pub fn routes_changed(&self, tracker: &mut ChangeTracker) -> (c: Completion)
        requires
            old(tracker).current() < u64::MAX,
        ensures
            final(tracker).deps() == option_deps(self@),
            final(tracker).current() == next_token(
                old(tracker).deps(),
                old(tracker).current(),
                option_deps(self@),
            ),
            c.id() == final(tracker).current(),
    {
        let mut ds: Vec<FsPath> = Vec::new();
        let ghost pre = ds;
        match &self.0 {
            Some(s) => {
                collect_structure_deps(s, &mut ds);
                proof {
                    assert(pre.deep_view() =~= Seq::<Seq<Seq<u8>>>::empty());
                    assert(ds.deep_view() =~= option_deps(self@));
                }
            },
            None => {
                proof {
                    assert(ds.deep_view() =~= option_deps(self@));
                }
            },
        }
        tracker.observe(ds)
    }
}

} // verus!
