//! Paths in the project file system and in the router's logical URL space.
//!
//! A path is a sequence of name segments from its root; its view is the
//! sequence of the segments' byte views.  Joining appends one segment;
//! `is_inside` is the proper-descendant test used to classify API routes.

use vstd::prelude::*;
use crate::bytes::clone_bytes;

verus! {

/// A file-system or router path: the segments from the root, in order.
pub struct FsPath {
    pub segments: Vec<Vec<u8>>,
}

impl View for FsPath {
    type V = Seq<Seq<u8>>;

    open spec fn view(&self) -> Seq<Seq<u8>> {
        self.segments.deep_view()
    }
}

impl DeepView for FsPath {
    type V = Seq<Seq<u8>>;

    open spec fn deep_view(&self) -> Seq<Seq<u8>> {
        self.segments.deep_view()
    }
}

/// `p` lies properly inside `root`: `root` is a strict prefix of `p`'s
/// segments.  A path is not inside itself.
pub open spec fn spec_is_inside(p: Seq<Seq<u8>>, root: Seq<Seq<u8>>) -> bool {
    root.len() < p.len() && root =~= p.subrange(0, root.len() as int)
}

/// Segment lists whose entries agree byte for byte have the same deep view.
proof fn lemma_segments_deep_view_pointwise(a: Vec<Vec<u8>>, b: Vec<Vec<u8>>)
    requires
        a@.len() == b@.len(),
        forall|j: int| 0 <= j < a@.len() ==> a@[j]@ == b@[j]@,
    ensures
        a.deep_view() == b.deep_view(),
{
    assert forall|j: int| 0 <= j < a@.len() implies a.deep_view()[j] =~= b.deep_view()[j] by {
        assert(a@[j]@ == b@[j]@);
    }
    assert(a.deep_view() =~~= b.deep_view());
}

/// Copies a segment list.
pub fn clone_segments(v: &Vec<Vec<u8>>) -> (r: Vec<Vec<u8>>)
    ensures
        r.deep_view() == v.deep_view(),
{
    let mut r: Vec<Vec<u8>> = Vec::new();
    let mut i: usize = 0;
    while i < v.len()
        invariant
            i <= v.len(),
            r@.len() == i as int,
            forall|j: int| 0 <= j < i ==> r@[j]@ == v@[j]@,
        decreases v.len() - i,
    {
        r.push(clone_bytes(&v[i]));
        i = i + 1;
    }
    proof {
        lemma_segments_deep_view_pointwise(r, *v);
    }
    r
}

impl FsPath {
    /// Copies the path.
    pub fn duplicate(&self) -> (r: Self)
        ensures
            r@ == self@,
    {
        FsPath { segments: clone_segments(&self.segments) }
    }

    /// The path extended by one further segment.
    pub fn join(&self, segment: &Vec<u8>) -> (r: Self)
        ensures
            r@ == self@.push(segment@),
    {
        let mut segments = clone_segments(&self.segments);
        segments.push(clone_bytes(segment));
        let r = FsPath { segments };
        proof {
            assert(r@ =~~= self@.push(segment@));
        }
        r
    }

    /// Decides whether this path lies properly inside `root`.
    pub fn is_inside(&self, root: &FsPath) -> (r: bool)
        ensures
            r == spec_is_inside(self@, root@),
    {
        if root.segments.len() >= self.segments.len() {
            return false;
        }
        let mut i: usize = 0;
        while i < root.segments.len()
            invariant
                i <= root.segments.len(),
                root.segments.len() < self.segments.len(),
                forall|j: int| 0 <= j < i ==> root@[j] == self@[j],
            decreases root.segments.len() - i,
        {
            let same = crate::bytes::bytes_eq(&root.segments[i], &self.segments[i]);
            proof {
                assert(root@[i as int] == root.segments@[i as int]@);
                assert(self@[i as int] == self.segments@[i as int]@);
            }
            if !same {
                return false;
            }
            i = i + 1;
        }
        proof {
            assert(root@ =~~= self@.subrange(0, root@.len() as int));
        }
        true
    }
}

} // verus!
