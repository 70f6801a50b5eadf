//! The walk's global guarantees, proved over `walk_spec`.
//!
//! Determinism: a node's items and children are strictly sorted by the entry
//! name they came from, and permuting a directory listing does not change the
//! walk's result.  Classification: throughout the tree, a route is an API
//! route exactly when its router path lies under the API root; a catch-all
//! name is classified the same whether written `[...name]` or `[[...name]]`;
//! and a qualifying file's router path collapses onto its directory's router
//! path for an `index` basename and appends the basename otherwise.

use vstd::prelude::*;
use crate::bytes::lex_lt;
use crate::bytes::spec_ext_allowed;
use crate::bytes::spec_split_extension;
use crate::paths::spec_is_inside;
use crate::snapshot::DirSnapshot;
use crate::snapshot::FsEntry;
use crate::snapshot::dir_wf;
use crate::snapshot::distinct_names;
use crate::snapshot::entry_name;
use crate::sorted::filter_map_mset;
use crate::sorted::insert_pair;
use crate::sorted::lemma_filter_map_mset_member;
use crate::sorted::lemma_filter_map_mset_permutation;
use crate::sorted::lemma_insert_pair_membership;
use crate::sorted::lemma_insert_pair_multiset;
use crate::sorted::lemma_insert_pair_sorted;
use crate::sorted::lemma_sorted_pairs_unique;
use crate::sorted::name_fresh;
use crate::sorted::sorted_pairs;
use crate::specificity::SpecificityElement;
use crate::structure::ItemModel;
use crate::structure::SegmentClass;
use crate::structure::StructureModel;
use crate::structure::child_pairs;
use crate::structure::entry_item_pair;
use crate::structure::file_pair;
use crate::structure::index_name;
use crate::structure::item_pairs;
use crate::structure::next_position;
use crate::structure::refined_specificity;
use crate::structure::spec_segment_class;
use crate::structure::walk_spec;

verus! {

/// The child pair a directory entry contributes: subdirectory entries only,
/// each carrying the walk of its content.
pub open spec fn entry_child_pair(
    e: FsEntry,
    ppath: Seq<Seq<u8>>,
    rpath: Seq<Seq<u8>>,
    spc: Seq<SpecificityElement>,
    position: u32,
    api_root: Seq<Seq<u8>>,
    exts: Seq<Seq<u8>>,
) -> Option<(Seq<u8>, StructureModel)> {
    match e {
        FsEntry::Dir { name, content } => Some(
            (
                name@,
                walk_spec(
                    content,
                    ppath.push(name@),
                    rpath.push(name@),
                    refined_specificity(spc, name@, position),
                    next_position(position),
                    api_root,
                    exts,
                ),
            ),
        ),
        _ => None,
    }
}

/// Every item pair of a walk comes from one of the listing's entries.
proof fn lemma_item_pairs_provenance(
    entries: Seq<FsEntry>,
    pp: Seq<Seq<u8>>,
    rp: Seq<Seq<u8>>,
    sp: Seq<SpecificityElement>,
    position: u32,
    ar: Seq<Seq<u8>>,
    ex: Seq<Seq<u8>>,
)
    ensures
        forall|k: int|
            #![trigger item_pairs(entries, pp, rp, sp, position, ar, ex)[k]]
            0 <= k < item_pairs(entries, pp, rp, sp, position, ar, ex).len() ==> exists|i: int|
                0 <= i < entries.len() && #[trigger] entry_item_pair(
                    entries[i],
                    pp,
                    rp,
                    sp,
                    position,
                    ar,
                    ex,
                ) == Some(item_pairs(entries, pp, rp, sp, position, ar, ex)[k]),
    decreases entries.len(),
{
    if entries.len() > 0 {
        lemma_item_pairs_provenance(entries.drop_last(), pp, rp, sp, position, ar, ex);
        let prev = item_pairs(entries.drop_last(), pp, rp, sp, position, ar, ex);
        let ip = item_pairs(entries, pp, rp, sp, position, ar, ex);
        match entry_item_pair(entries.last(), pp, rp, sp, position, ar, ex) {
            Some(p) => {
                lemma_insert_pair_membership(prev, p);
                assert forall|k: int| #![trigger ip[k]] 0 <= k < ip.len() implies exists|i: int|
                    0 <= i < entries.len() && #[trigger] entry_item_pair(
                        entries[i],
                        pp,
                        rp,
                        sp,
                        position,
                        ar,
                        ex,
                    ) == Some(ip[k]) by {
                    if ip[k] == p {
                        assert(entry_item_pair(
                            entries[entries.len() - 1],
                            pp,
                            rp,
                            sp,
                            position,
                            ar,
                            ex,
                        ) == Some(ip[k]));
                    } else {
                        assert(prev.contains(ip[k]));
                        let m = choose|m: int| 0 <= m < prev.len() && prev[m] == ip[k];
                        let i = choose|i: int|
                            0 <= i < entries.drop_last().len() && #[trigger] entry_item_pair(
                                entries.drop_last()[i],
                                pp,
                                rp,
                                sp,
                                position,
                                ar,
                                ex,
                            ) == Some(prev[m]);
                        assert(entries.drop_last()[i] == entries[i]);
                        assert(entry_item_pair(entries[i], pp, rp, sp, position, ar, ex) == Some(
                            ip[k],
                        ));
                    }
                }
            },
            None => {
                assert forall|k: int| #![trigger ip[k]] 0 <= k < ip.len() implies exists|i: int|
                    0 <= i < entries.len() && #[trigger] entry_item_pair(
                        entries[i],
                        pp,
                        rp,
                        sp,
                        position,
                        ar,
                        ex,
                    ) == Some(ip[k]) by {
                    let i = choose|i: int|
                        0 <= i < entries.drop_last().len() && #[trigger] entry_item_pair(
                            entries.drop_last()[i],
                            pp,
                            rp,
                            sp,
                            position,
                            ar,
                            ex,
                        ) == Some(prev[k]);
                    assert(entries.drop_last()[i] == entries[i]);
                }
            },
        }
    }
}

/// A pair's name is the name of the entry it comes from.
proof fn lemma_item_pair_name(
    e: FsEntry,
    pp: Seq<Seq<u8>>,
    rp: Seq<Seq<u8>>,
    sp: Seq<SpecificityElement>,
    position: u32,
    ar: Seq<Seq<u8>>,
    ex: Seq<Seq<u8>>,
)
    requires
        entry_item_pair(e, pp, rp, sp, position, ar, ex) is Some,
    ensures
        entry_item_pair(e, pp, rp, sp, position, ar, ex)->Some_0.0 == entry_name(e),
        entry_item_pair(e, pp, rp, sp, position, ar, ex)->Some_0.1.project_path == pp.push(
            entry_name(e),
        ),
{
}

/// With distinct entry names, the item pairs of a walk are strictly sorted.
proof fn lemma_item_pairs_sorted(
    entries: Seq<FsEntry>,
    pp: Seq<Seq<u8>>,
    rp: Seq<Seq<u8>>,
    sp: Seq<SpecificityElement>,
    position: u32,
    ar: Seq<Seq<u8>>,
    ex: Seq<Seq<u8>>,
)
    requires
        distinct_names(entries),
    ensures
        sorted_pairs(item_pairs(entries, pp, rp, sp, position, ar, ex)),
    decreases entries.len(),
{
    if entries.len() > 0 {
        assert forall|i: int, j: int|
            0 <= i < j < entries.drop_last().len() implies entry_name(entries.drop_last()[i])
            != entry_name(entries.drop_last()[j]) by {
            assert(entries.drop_last()[i] == entries[i]);
            assert(entries.drop_last()[j] == entries[j]);
        }
        lemma_item_pairs_sorted(entries.drop_last(), pp, rp, sp, position, ar, ex);
        let prev = item_pairs(entries.drop_last(), pp, rp, sp, position, ar, ex);
        match entry_item_pair(entries.last(), pp, rp, sp, position, ar, ex) {
            Some(p) => {
                lemma_item_pair_name(entries.last(), pp, rp, sp, position, ar, ex);
                lemma_item_pairs_provenance(entries.drop_last(), pp, rp, sp, position, ar, ex);
                assert forall|k: int| 0 <= k < prev.len() implies prev[k].0 != p.0 by {
                    let i = choose|i: int|
                        0 <= i < entries.drop_last().len() && #[trigger] entry_item_pair(
                            entries.drop_last()[i],
                            pp,
                            rp,
                            sp,
                            position,
                            ar,
                            ex,
                        ) == Some(prev[k]);
                    lemma_item_pair_name(entries.drop_last()[i], pp, rp, sp, position, ar, ex);
                    assert(entries.drop_last()[i] == entries[i]);
                    assert(prev[k].0 == entry_name(entries[i]));
                    assert(entry_name(entries[i]) != entry_name(entries[entries.len() - 1]));
                }
                assert(name_fresh(prev, p.0));
                lemma_insert_pair_sorted(prev, p);
            },
            None => {},
        }
    }
}

/// The item pairs of a walk carry the multiset image of the listing.
proof fn lemma_item_pairs_multiset(
    entries: Seq<FsEntry>,
    pp: Seq<Seq<u8>>,
    rp: Seq<Seq<u8>>,
    sp: Seq<SpecificityElement>,
    position: u32,
    ar: Seq<Seq<u8>>,
    ex: Seq<Seq<u8>>,
    f: spec_fn(FsEntry) -> Option<(Seq<u8>, ItemModel)>,
)
    requires
        forall|e: FsEntry| #[trigger] f(e) == entry_item_pair(e, pp, rp, sp, position, ar, ex),
    ensures
        item_pairs(entries, pp, rp, sp, position, ar, ex).to_multiset() == filter_map_mset(
            entries,
            f,
        ),
    decreases entries.len(),
{
    broadcast use vstd::multiset::group_multiset_axioms;
    broadcast use vstd::seq_lib::group_to_multiset_ensures;

    if entries.len() == 0 {
        assert(item_pairs(entries, pp, rp, sp, position, ar, ex).to_multiset() =~= filter_map_mset(
            entries,
            f,
        ));
    } else {
        lemma_item_pairs_multiset(entries.drop_last(), pp, rp, sp, position, ar, ex, f);
        let prev = item_pairs(entries.drop_last(), pp, rp, sp, position, ar, ex);
        match entry_item_pair(entries.last(), pp, rp, sp, position, ar, ex) {
            Some(p) => {
                lemma_insert_pair_multiset(prev, p);
            },
            None => {},
        }
    }
}

/// Every child pair of a walk comes from one of the listing's entries, and is
/// that subdirectory's walk.
proof fn lemma_child_pairs_provenance(
    d: DirSnapshot,
    n: int,
    pp: Seq<Seq<u8>>,
    rp: Seq<Seq<u8>>,
    sp: Seq<SpecificityElement>,
    position: u32,
    ar: Seq<Seq<u8>>,
    ex: Seq<Seq<u8>>,
)
    requires
        0 <= n <= d.entries@.len(),
    ensures
        forall|k: int|
            #![trigger child_pairs(d, n, pp, rp, sp, position, ar, ex)[k]]
            0 <= k < child_pairs(d, n, pp, rp, sp, position, ar, ex).len() ==> exists|i: int|
                0 <= i < n && #[trigger] entry_child_pair(
                    d.entries@[i],
                    pp,
                    rp,
                    sp,
                    position,
                    ar,
                    ex,
                ) == Some(child_pairs(d, n, pp, rp, sp, position, ar, ex)[k]),
    decreases n,
{
    if n > 0 {
        lemma_child_pairs_provenance(d, n - 1, pp, rp, sp, position, ar, ex);
        let prev = child_pairs(d, n - 1, pp, rp, sp, position, ar, ex);
        let cp = child_pairs(d, n, pp, rp, sp, position, ar, ex);
        match d.entries@[n - 1] {
            FsEntry::Dir { name, content } => {
                let p = entry_child_pair(d.entries@[n - 1], pp, rp, sp, position, ar, ex)->Some_0;
                assert(cp == insert_pair(prev, p));
                lemma_insert_pair_membership(prev, p);
                assert forall|k: int| #![trigger cp[k]] 0 <= k < cp.len() implies exists|i: int|
                    0 <= i < n && #[trigger] entry_child_pair(
                        d.entries@[i],
                        pp,
                        rp,
                        sp,
                        position,
                        ar,
                        ex,
                    ) == Some(cp[k]) by {
                    if cp[k] == p {
                        assert(entry_child_pair(d.entries@[n - 1], pp, rp, sp, position, ar, ex)
                            == Some(cp[k]));
                    } else {
                        assert(prev.contains(cp[k]));
                        let m = choose|m: int| 0 <= m < prev.len() && prev[m] == cp[k];
                    }
                }
            },
            _ => {},
        }
    }
}

/// A child pair's name is the name of the entry it comes from.
proof fn lemma_child_pair_name(
    e: FsEntry,
    pp: Seq<Seq<u8>>,
    rp: Seq<Seq<u8>>,
    sp: Seq<SpecificityElement>,
    position: u32,
    ar: Seq<Seq<u8>>,
    ex: Seq<Seq<u8>>,
)
    requires
        entry_child_pair(e, pp, rp, sp, position, ar, ex) is Some,
    ensures
        entry_child_pair(e, pp, rp, sp, position, ar, ex)->Some_0.0 == entry_name(e),
        entry_child_pair(e, pp, rp, sp, position, ar, ex)->Some_0.1.project_path == pp.push(
            entry_name(e),
        ),
{
}

/// With distinct entry names, the child pairs of a walk are strictly sorted.
proof fn lemma_child_pairs_sorted(
    d: DirSnapshot,
    n: int,
    pp: Seq<Seq<u8>>,
    rp: Seq<Seq<u8>>,
    sp: Seq<SpecificityElement>,
    position: u32,
    ar: Seq<Seq<u8>>,
    ex: Seq<Seq<u8>>,
)
    requires
        distinct_names(d.entries@),
        0 <= n <= d.entries@.len(),
    ensures
        sorted_pairs(child_pairs(d, n, pp, rp, sp, position, ar, ex)),
    decreases n,
{
    if n > 0 {
        lemma_child_pairs_sorted(d, n - 1, pp, rp, sp, position, ar, ex);
        let prev = child_pairs(d, n - 1, pp, rp, sp, position, ar, ex);
        match d.entries@[n - 1] {
            FsEntry::Dir { name, content } => {
                let p = entry_child_pair(d.entries@[n - 1], pp, rp, sp, position, ar, ex)->Some_0;
                lemma_child_pair_name(d.entries@[n - 1], pp, rp, sp, position, ar, ex);
                lemma_child_pairs_provenance(d, n - 1, pp, rp, sp, position, ar, ex);
                assert forall|k: int| 0 <= k < prev.len() implies prev[k].0 != p.0 by {
                    let i = choose|i: int|
                        0 <= i < n - 1 && #[trigger] entry_child_pair(
                            d.entries@[i],
                            pp,
                            rp,
                            sp,
                            position,
                            ar,
                            ex,
                        ) == Some(prev[k]);
                    lemma_child_pair_name(d.entries@[i], pp, rp, sp, position, ar, ex);
                    assert(prev[k].0 == entry_name(d.entries@[i]));
                    assert(entry_name(d.entries@[i]) != entry_name(d.entries@[n - 1]));
                }
                assert(name_fresh(prev, p.0));
                lemma_insert_pair_sorted(prev, p);
            },
            _ => {},
        }
    }
}

/// The child pairs of a walk carry the multiset image of the listing.
proof fn lemma_child_pairs_multiset(
    d: DirSnapshot,
    n: int,
    pp: Seq<Seq<u8>>,
    rp: Seq<Seq<u8>>,
    sp: Seq<SpecificityElement>,
    position: u32,
    ar: Seq<Seq<u8>>,
    ex: Seq<Seq<u8>>,
    g: spec_fn(FsEntry) -> Option<(Seq<u8>, StructureModel)>,
)
    requires
        0 <= n <= d.entries@.len(),
        forall|e: FsEntry| #[trigger] g(e) == entry_child_pair(e, pp, rp, sp, position, ar, ex),
    ensures
        child_pairs(d, n, pp, rp, sp, position, ar, ex).to_multiset() == filter_map_mset(
            d.entries@.take(n),
            g,
        ),
    decreases n,
{
    broadcast use vstd::multiset::group_multiset_axioms;
    broadcast use vstd::seq_lib::group_to_multiset_ensures;

    if n == 0 {
        assert(child_pairs(d, 0, pp, rp, sp, position, ar, ex).to_multiset() =~= filter_map_mset(
            d.entries@.take(0),
            g,
        ));
    } else {
        lemma_child_pairs_multiset(d, n - 1, pp, rp, sp, position, ar, ex, g);
        assert(d.entries@.take(n).drop_last() =~= d.entries@.take(n - 1));
        assert(d.entries@.take(n).last() == d.entries@[n - 1]);
        let prev = child_pairs(d, n - 1, pp, rp, sp, position, ar, ex);
        match d.entries@[n - 1] {
            FsEntry::Dir { name, content } => {
                let p = entry_child_pair(d.entries@[n - 1], pp, rp, sp, position, ar, ex)->Some_0;
                lemma_insert_pair_multiset(prev, p);
            },
            _ => {},
        }
    }
}

/// Permuting a directory listing does not change the walk: two listings with
/// the same entries (as a multiset), each with distinct names, walk to the
/// same node.  Applied at any depth, this makes the tree independent of the
/// order in which the file system returns directory entries.
pub proof fn lemma_walk_deterministic(
    d1: DirSnapshot,
    d2: DirSnapshot,
    pp: Seq<Seq<u8>>,
    rp: Seq<Seq<u8>>,
    sp: Seq<SpecificityElement>,
    position: u32,
    ar: Seq<Seq<u8>>,
    ex: Seq<Seq<u8>>,
)
    requires
        distinct_names(d1.entries@),
        distinct_names(d2.entries@),
        d1.entries@.to_multiset() == d2.entries@.to_multiset(),
    ensures
        walk_spec(d1, pp, rp, sp, position, ar, ex) == walk_spec(d2, pp, rp, sp, position, ar, ex),
{
    let f = |e: FsEntry| entry_item_pair(e, pp, rp, sp, position, ar, ex);
    lemma_item_pairs_multiset(d1.entries@, pp, rp, sp, position, ar, ex, f);
    lemma_item_pairs_multiset(d2.entries@, pp, rp, sp, position, ar, ex, f);
    lemma_filter_map_mset_permutation(d1.entries@, d2.entries@, f);
    lemma_item_pairs_sorted(d1.entries@, pp, rp, sp, position, ar, ex);
    lemma_item_pairs_sorted(d2.entries@, pp, rp, sp, position, ar, ex);
    lemma_sorted_pairs_unique(
        item_pairs(d1.entries@, pp, rp, sp, position, ar, ex),
        item_pairs(d2.entries@, pp, rp, sp, position, ar, ex),
    );
    let g = |e: FsEntry| entry_child_pair(e, pp, rp, sp, position, ar, ex);
    lemma_child_pairs_multiset(d1, d1.entries@.len() as int, pp, rp, sp, position, ar, ex, g);
    lemma_child_pairs_multiset(d2, d2.entries@.len() as int, pp, rp, sp, position, ar, ex, g);
    assert(d1.entries@.take(d1.entries@.len() as int) =~= d1.entries@);
    assert(d2.entries@.take(d2.entries@.len() as int) =~= d2.entries@);
    lemma_filter_map_mset_permutation(d1.entries@, d2.entries@, g);
    lemma_child_pairs_sorted(d1, d1.entries@.len() as int, pp, rp, sp, position, ar, ex);
    lemma_child_pairs_sorted(d2, d2.entries@.len() as int, pp, rp, sp, position, ar, ex);
    lemma_sorted_pairs_unique(
        child_pairs(d1, d1.entries@.len() as int, pp, rp, sp, position, ar, ex),
        child_pairs(d2, d2.entries@.len() as int, pp, rp, sp, position, ar, ex),
    );
    assert(walk_spec(d1, pp, rp, sp, position, ar, ex) =~= walk_spec(
        d2,
        pp,
        rp,
        sp,
        position,
        ar,
        ex,
    ));
}

/// Within any single node of a walk with distinct entry names, items are
/// sorted strictly ascending by source file name and children strictly
/// ascending by source directory name — the name being the last segment of
/// each one's project path.
pub proof fn lemma_walk_sorted(
    d: DirSnapshot,
    pp: Seq<Seq<u8>>,
    rp: Seq<Seq<u8>>,
    sp: Seq<SpecificityElement>,
    position: u32,
    ar: Seq<Seq<u8>>,
    ex: Seq<Seq<u8>>,
)
    requires
        distinct_names(d.entries@),
    ensures
        ({
            let m = walk_spec(d, pp, rp, sp, position, ar, ex);
            &&& forall|i: int, j: int|
                0 <= i < j < m.items.len() ==> lex_lt(
                    #[trigger] m.items[i].project_path.last(),
                    #[trigger] m.items[j].project_path.last(),
                )
            &&& forall|i: int, j: int|
                0 <= i < j < m.children.len() ==> lex_lt(
                    #[trigger] m.children[i].project_path.last(),
                    #[trigger] m.children[j].project_path.last(),
                )
        }),
{
    let m = walk_spec(d, pp, rp, sp, position, ar, ex);
    let n = d.entries@.len() as int;
    let ip = item_pairs(d.entries@, pp, rp, sp, position, ar, ex);
    let cp = child_pairs(d, n, pp, rp, sp, position, ar, ex);
    lemma_item_pairs_sorted(d.entries@, pp, rp, sp, position, ar, ex);
    lemma_item_pairs_provenance(d.entries@, pp, rp, sp, position, ar, ex);
    lemma_child_pairs_sorted(d, n, pp, rp, sp, position, ar, ex);
    lemma_child_pairs_provenance(d, n, pp, rp, sp, position, ar, ex);
    assert forall|k: int| 0 <= k < ip.len() implies #[trigger] ip[k].1.project_path.last()
        == ip[k].0 by {
        let i = choose|i: int|
            0 <= i < d.entries@.len() && #[trigger] entry_item_pair(
                d.entries@[i],
                pp,
                rp,
                sp,
                position,
                ar,
                ex,
            ) == Some(ip[k]);
        lemma_item_pair_name(d.entries@[i], pp, rp, sp, position, ar, ex);
    }
    assert forall|k: int| 0 <= k < cp.len() implies #[trigger] cp[k].1.project_path.last()
        == cp[k].0 by {
        let i = choose|i: int|
            0 <= i < n && #[trigger] entry_child_pair(d.entries@[i], pp, rp, sp, position, ar, ex)
                == Some(cp[k]);
        lemma_child_pair_name(d.entries@[i], pp, rp, sp, position, ar, ex);
    }
    assert(forall|k: int| 0 <= k < m.items.len() ==> #[trigger] m.items[k] == ip[k].1);
    assert(forall|k: int| 0 <= k < m.children.len() ==> #[trigger] m.children[k] == cp[k].1);
}

/// Every node of a tree lists its items sorted strictly ascending by source
/// file name and its children strictly ascending by source directory name —
/// the name being the last segment of each one's project path.
pub open spec fn routes_sorted(m: StructureModel) -> bool
    decreases m,
{
    &&& forall|i: int, j: int|
        0 <= i < j < m.items.len() ==> lex_lt(
            #[trigger] m.items[i].project_path.last(),
            #[trigger] m.items[j].project_path.last(),
        )
    &&& forall|i: int, j: int|
        0 <= i < j < m.children.len() ==> lex_lt(
            #[trigger] m.children[i].project_path.last(),
            #[trigger] m.children[j].project_path.last(),
        )
    &&& forall|k: int| 0 <= k < m.children.len() ==> routes_sorted(#[trigger] m.children[k])
}

/// The walk of a well-formed snapshot — distinct names in every directory,
/// as a real listing has — is sorted at every node of the tree.
pub proof fn lemma_walk_sorted_tree(
    d: DirSnapshot,
    pp: Seq<Seq<u8>>,
    rp: Seq<Seq<u8>>,
    sp: Seq<SpecificityElement>,
    position: u32,
    ar: Seq<Seq<u8>>,
    ex: Seq<Seq<u8>>,
)
    requires
        dir_wf(d),
    ensures
        routes_sorted(walk_spec(d, pp, rp, sp, position, ar, ex)),
    decreases d,
{
    let m = walk_spec(d, pp, rp, sp, position, ar, ex);
    let n = d.entries@.len() as int;
    let cp = child_pairs(d, n, pp, rp, sp, position, ar, ex);
    lemma_walk_sorted(d, pp, rp, sp, position, ar, ex);
    lemma_child_pairs_provenance(d, n, pp, rp, sp, position, ar, ex);
    assert forall|k: int| 0 <= k < m.children.len() implies routes_sorted(
        #[trigger] m.children[k],
    ) by {
        assert(m.children[k] == cp[k].1);
        let i = choose|i: int|
            0 <= i < n && #[trigger] entry_child_pair(d.entries@[i], pp, rp, sp, position, ar, ex)
                == Some(cp[k]);
        match d.entries@[i] {
            FsEntry::Dir { name, content } => {
                assert(dir_wf(content));
                lemma_walk_sorted_tree(
                    content,
                    pp.push(name@),
                    rp.push(name@),
                    refined_specificity(sp, name@, position),
                    next_position(position),
                    ar,
                    ex,
                );
            },
            _ => {
                assert(false);
            },
        }
    }
}

/// Routes throughout a tree are classified by where their router path lies:
/// `Api` exactly when it sits under the API root, `Page` otherwise.
pub open spec fn routes_classified(m: StructureModel, api_root: Seq<Seq<u8>>) -> bool
    decreases m,
{
    &&& forall|k: int|
        0 <= k < m.items.len() ==> #[trigger] m.items[k].is_api == spec_is_inside(
            m.items[k].next_router_path,
            api_root,
        )
    &&& forall|k: int|
        0 <= k < m.children.len() ==> routes_classified(#[trigger] m.children[k], api_root)
}

/// Everywhere in a walked tree, a route is an API route exactly when its
/// computed router path is nested under the API root.
pub proof fn lemma_walk_classifies_api(
    d: DirSnapshot,
    pp: Seq<Seq<u8>>,
    rp: Seq<Seq<u8>>,
    sp: Seq<SpecificityElement>,
    position: u32,
    ar: Seq<Seq<u8>>,
    ex: Seq<Seq<u8>>,
)
    ensures
        routes_classified(walk_spec(d, pp, rp, sp, position, ar, ex), ar),
    decreases d,
{
    let m = walk_spec(d, pp, rp, sp, position, ar, ex);
    let n = d.entries@.len() as int;
    let ip = item_pairs(d.entries@, pp, rp, sp, position, ar, ex);
    let cp = child_pairs(d, n, pp, rp, sp, position, ar, ex);
    lemma_item_pairs_provenance(d.entries@, pp, rp, sp, position, ar, ex);
    lemma_child_pairs_provenance(d, n, pp, rp, sp, position, ar, ex);
    assert forall|k: int| 0 <= k < m.items.len() implies #[trigger] m.items[k].is_api
        == spec_is_inside(m.items[k].next_router_path, ar) by {
        assert(m.items[k] == ip[k].1);
        let i = choose|i: int|
            0 <= i < d.entries@.len() && #[trigger] entry_item_pair(
                d.entries@[i],
                pp,
                rp,
                sp,
                position,
                ar,
                ex,
            ) == Some(ip[k]);
    }
    assert forall|k: int| 0 <= k < m.children.len() implies routes_classified(
        #[trigger] m.children[k],
        ar,
    ) by {
        assert(m.children[k] == cp[k].1);
        let i = choose|i: int|
            0 <= i < n && #[trigger] entry_child_pair(d.entries@[i], pp, rp, sp, position, ar, ex)
                == Some(cp[k]);
        match d.entries@[i] {
            FsEntry::Dir { name, content } => {
                lemma_walk_classifies_api(
                    content,
                    pp.push(name@),
                    rp.push(name@),
                    refined_specificity(sp, name@, position),
                    next_position(position),
                    ar,
                    ex,
                );
            },
            _ => {
                assert(false);
            },
        }
    }
}

/// The router path a qualifying file maps to: its directory's router path
/// unchanged for an `index` basename, the router path with the basename
/// appended otherwise.
pub proof fn lemma_route_path_rule(
    name: Seq<u8>,
    pp: Seq<Seq<u8>>,
    rp: Seq<Seq<u8>>,
    sp: Seq<SpecificityElement>,
    position: u32,
    ar: Seq<Seq<u8>>,
    ex: Seq<Seq<u8>>,
)
    requires
        spec_split_extension(name) is Some,
        spec_ext_allowed(ex, spec_split_extension(name)->Some_0.1),
    ensures
        file_pair(name, pp, rp, sp, position, ar, ex) is Some,
        spec_split_extension(name)->Some_0.0 == index_name() ==> file_pair(
            name,
            pp,
            rp,
            sp,
            position,
            ar,
            ex,
        )->Some_0.1.next_router_path == rp,
        spec_split_extension(name)->Some_0.0 != index_name() ==> file_pair(
            name,
            pp,
            rp,
            sp,
            position,
            ar,
            ex,
        )->Some_0.1.next_router_path == rp.push(spec_split_extension(name)->Some_0.0),
{
}

/// Every qualifying file of a directory has its route in the walked node's
/// items, with the router path of `lemma_route_path_rule`.
pub proof fn lemma_walk_contains_file_route(
    d: DirSnapshot,
    i: int,
    pp: Seq<Seq<u8>>,
    rp: Seq<Seq<u8>>,
    sp: Seq<SpecificityElement>,
    position: u32,
    ar: Seq<Seq<u8>>,
    ex: Seq<Seq<u8>>,
)
    requires
        0 <= i < d.entries@.len(),
        entry_item_pair(d.entries@[i], pp, rp, sp, position, ar, ex) is Some,
    ensures
        walk_spec(d, pp, rp, sp, position, ar, ex).items.contains(
            entry_item_pair(d.entries@[i], pp, rp, sp, position, ar, ex)->Some_0.1,
        ),
{
    broadcast use vstd::multiset::group_multiset_axioms;
    broadcast use vstd::seq_lib::group_to_multiset_ensures;

    let m = walk_spec(d, pp, rp, sp, position, ar, ex);
    let ip = item_pairs(d.entries@, pp, rp, sp, position, ar, ex);
    let f = |e: FsEntry| entry_item_pair(e, pp, rp, sp, position, ar, ex);
    lemma_item_pairs_multiset(d.entries@, pp, rp, sp, position, ar, ex, f);
    lemma_filter_map_mset_member(d.entries@, f, i);
    let p = entry_item_pair(d.entries@[i], pp, rp, sp, position, ar, ex)->Some_0;
    assert(ip.to_multiset().contains(p));
    assert(ip.contains(p));
    let k = choose|k: int| 0 <= k < ip.len() && ip[k] == p;
    assert(m.items[k] == p.1);
}

/// A catch-all segment is classified catch-all whether written with the
/// optional double bracket, `[[...name]]`, or without, `[...name]`: both
/// forms land in the same specificity class.
pub proof fn lemma_catch_all_forms_equivalent(slug: Seq<u8>)
    ensures
        spec_segment_class(seq![91u8, 91u8, 46u8, 46u8, 46u8] + slug + seq![93u8, 93u8])
            == SegmentClass::CatchAll,
        spec_segment_class(seq![91u8, 46u8, 46u8, 46u8] + slug + seq![93u8])
            == SegmentClass::CatchAll,
        spec_segment_class(seq![91u8, 91u8, 46u8, 46u8, 46u8] + slug + seq![93u8, 93u8])
            == spec_segment_class(seq![91u8, 46u8, 46u8, 46u8] + slug + seq![93u8]),
{
    let a = seq![91u8, 91u8, 46u8, 46u8, 46u8] + slug + seq![93u8, 93u8];
    let b = seq![91u8, 46u8, 46u8, 46u8] + slug + seq![93u8];
    assert(a.subrange(0, 2) =~= seq![91u8, 91u8]);
    assert(b.subrange(0, 4) =~= seq![91u8, 46u8, 46u8, 46u8]);
}

} // verus!
