//! The route tree: classifying directory entries and walking a directory
//! snapshot into a `PagesStructure`.
//!
//! Every function here is specified against `walk_spec`, the mathematical
//! description of the walk: per directory, each file whose extension is
//! allowed becomes one route item (an `index` basename collapses onto the
//! directory's router path, any other basename appends itself), each
//! subdirectory becomes one child node, and both lists are kept sorted
//! strictly ascending by entry name, whatever order the listing arrived in.

use vstd::prelude::*;
use crate::bytes::bytes_eq;
use crate::bytes::clone_bytes;
use crate::bytes::ext_allowed;
use crate::bytes::is_prefix;
use crate::bytes::lex_lt;
use crate::bytes::spec_ext_allowed;
use crate::bytes::spec_split_extension;
use crate::bytes::split_extension;
use crate::paths::FsPath;
use crate::paths::spec_is_inside;
use crate::snapshot::DirSnapshot;
use crate::snapshot::FsEntry;
use crate::snapshot::dir_height;
use crate::snapshot::lemma_subdir_height;
use crate::sorted::insert_pair;
use crate::specificity::Specificity;
use crate::specificity::SpecificityElement;
use crate::specificity::catch_all_marker;
use crate::specificity::dynamic_marker;

verus! {

/// How an entry name classifies as a path segment.
#[derive(Clone, Copy, PartialEq, Eq, Structural, Debug)]
pub enum SegmentClass {
    /// No brackets: a fixed segment, inheriting the surrounding specificity.
    Fixed,
    /// `[name]`: a single dynamic segment.
    Dynamic,
    /// `[[...name]]` or `[...name]`: a catch-all segment, optional or not.
    CatchAll,
}

/// The classification of an entry name: names opening with `[[` or `[...` are
/// catch-alls, other names opening with `[` are dynamic segments.
pub open spec fn spec_segment_class(name: Seq<u8>) -> SegmentClass {
    if is_prefix(seq![91u8, 91u8], name) || is_prefix(seq![91u8, 46u8, 46u8, 46u8], name) {
        SegmentClass::CatchAll
    } else if is_prefix(seq![91u8], name) {
        SegmentClass::Dynamic
    } else {
        SegmentClass::Fixed
    }
}

/// Classifies an entry name as a path segment.
pub fn classify_segment(name: &Vec<u8>) -> (c: SegmentClass)
    ensures
        c == spec_segment_class(name@),
{
    if name.len() >= 2 && name[0] == 91u8 && name[1] == 91u8 {
        proof {
            assert(seq![91u8, 91u8] =~= name@.subrange(0, 2));
        }
        SegmentClass::CatchAll
    } else if name.len() >= 4 && name[0] == 91u8 && name[1] == 46u8 && name[2] == 46u8 && name[3]
        == 46u8 {
        proof {
            assert(seq![91u8, 46u8, 46u8, 46u8] =~= name@.subrange(0, 4));
        }
        SegmentClass::CatchAll
    } else if name.len() >= 1 && name[0] == 91u8 {
        proof {
            assert(seq![91u8] =~= name@.subrange(0, 1));
        }
        SegmentClass::Dynamic
    } else {
        proof {
            if name@.len() >= 1 {
                assert(name@.subrange(0, 1)[0] == name@[0]);
                if name@.len() >= 2 {
                    assert(name@.subrange(0, 2)[0] == name@[0]);
                }
                if name@.len() >= 4 {
                    assert(name@.subrange(0, 4)[0] == name@[0]);
                }
            }
        }
        SegmentClass::Fixed
    }
}

/// The specificity an entry passes on: its inherited specificity, refined by
/// the marker its own name introduces at depth `position`, if any.
pub open spec fn refined_specificity(
    spc: Seq<SpecificityElement>,
    name: Seq<u8>,
    position: u32,
) -> Seq<SpecificityElement> {
    match spec_segment_class(name) {
        SegmentClass::CatchAll => spc.push(catch_all_marker(position)),
        SegmentClass::Dynamic => spc.push(dynamic_marker(position)),
        SegmentClass::Fixed => spc,
    }
}

/// Applies the refinement of `refined_specificity` to an owned specificity.
pub fn refine_specificity(spc: &Specificity, name: &Vec<u8>, position: u32) -> (r: Specificity)
    ensures
        r@ == refined_specificity(spc@, name@, position),
{
    match classify_segment(name) {
        SegmentClass::CatchAll => spc.with_catch_all(position),
        SegmentClass::Dynamic => spc.with_dynamic_segment(position),
        SegmentClass::Fixed => spc.duplicate(),
    }
}

/// The basename `index`, which collapses onto its directory's router path.
pub open spec fn index_name() -> Seq<u8> {
    seq![105u8, 110u8, 100u8, 101u8, 120u8]
}

/// The abstract value of one route: its classification and the three fields
/// every route carries.
#[verifier::ext_equal]
pub ghost struct ItemModel {
    pub is_api: bool,
    pub project_path: Seq<Seq<u8>>,
    pub next_router_path: Seq<Seq<u8>>,
    pub specificity: Seq<SpecificityElement>,
}

/// A final route in the pages directory: a page, or an API route.
pub enum PagesStructureItem {
    Page { project_path: FsPath, next_router_path: FsPath, specificity: Specificity },
    Api { project_path: FsPath, next_router_path: FsPath, specificity: Specificity },
}

impl View for PagesStructureItem {
    type V = ItemModel;

    open spec fn view(&self) -> ItemModel {
        match self {
            PagesStructureItem::Page { project_path, next_router_path, specificity } => (ItemModel {
                is_api: false,
                project_path: project_path@,
                next_router_path: next_router_path@,
                specificity: specificity@,
            }),
            PagesStructureItem::Api { project_path, next_router_path, specificity } => (ItemModel {
                is_api: true,
                project_path: project_path@,
                next_router_path: next_router_path@,
                specificity: specificity@,
            }),
        }
    }
}

impl PagesStructureItem {
    /// Builds a route item; `is_api` picks the API variant.
    pub fn new(
        project_path: FsPath,
        next_router_path: FsPath,
        specificity: Specificity,
        is_api: bool,
    ) -> (r: Self)
        ensures
            r@ == (ItemModel {
                is_api,
                project_path: project_path@,
                next_router_path: next_router_path@,
                specificity: specificity@,
            }),
    {
        if is_api {
            PagesStructureItem::Api { project_path, next_router_path, specificity }
        } else {
            PagesStructureItem::Page { project_path, next_router_path, specificity }
        }
    }

    /// The route's source file location.
    pub fn project_path(&self) -> (r: &FsPath)
        ensures
            r@ == self@.project_path,
    {
        match self {
            PagesStructureItem::Page { project_path, .. } => project_path,
            PagesStructureItem::Api { project_path, .. } => project_path,
        }
    }

    /// The logical URL path the route's file maps to.
    pub fn next_router_path(&self) -> (r: &FsPath)
        ensures
            r@ == self@.next_router_path,
    {
        match self {
            PagesStructureItem::Page { next_router_path, .. } => next_router_path,
            PagesStructureItem::Api { next_router_path, .. } => next_router_path,
        }
    }
}

/// The abstract value of one directory node of the route tree.
#[verifier::ext_equal]
pub ghost struct StructureModel {
    pub project_path: Seq<Seq<u8>>,
    pub items: Seq<ItemModel>,
    pub children: Seq<StructureModel>,
}

/// One directory of the pages tree: its own routes and its subdirectories,
/// each sorted ascending by the entry name they came from.
pub struct PagesStructure {
    pub project_path: FsPath,
    pub items: Vec<PagesStructureItem>,
    pub children: Vec<PagesStructure>,
}

/// The models of the first `i` children of `s`, in order.
pub open spec fn children_models(s: PagesStructure, i: int) -> Seq<StructureModel>
    decreases s, i,
{
    if i <= 0 || i > s.children@.len() {
        Seq::empty()
    } else {
        children_models(s, i - 1).push(structure_model(s.children@[i - 1]))
    }
}

/// The abstract value of a `PagesStructure` node.
pub open spec fn structure_model(s: PagesStructure) -> StructureModel
    decreases s, s.children@.len() + 1,
{
    StructureModel {
        project_path: s.project_path@,
        items: Seq::new(s.items@.len(), |i: int| s.items@[i]@),
        children: children_models(s, s.children@.len() as int),
    }
}

impl View for PagesStructure {
    type V = StructureModel;

    open spec fn view(&self) -> StructureModel {
        structure_model(*self)
    }
}

impl PagesStructure {
    /// The path to the directory of this structure in the project file
    /// system.
    pub fn project_path(&self) -> (r: &FsPath)
        ensures
            r@ == self@.project_path,
    {
        &self.project_path
    }
}

/// `children_models` lists exactly the children's models.
pub proof fn lemma_children_models(s: PagesStructure, i: int)
    requires
        0 <= i <= s.children@.len(),
    ensures
        children_models(s, i).len() == i,
        forall|j: int| 0 <= j < i ==> children_models(s, i)[j] == structure_model(s.children@[j]),
    decreases i,
{
    if i > 0 {
        lemma_children_models(s, i - 1);
    }
}

/// The route tree of a project that may have no pages directory at all.
pub struct OptionPagesStructure(pub Option<PagesStructure>);

/// The route item a file entry named `name` contributes, paired with that
/// name, or `None` when the name has no dot or a disallowed extension.
pub open spec fn file_pair(
    name: Seq<u8>,
    ppath: Seq<Seq<u8>>,
    rpath: Seq<Seq<u8>>,
    spc: Seq<SpecificityElement>,
    position: u32,
    api_root: Seq<Seq<u8>>,
    exts: Seq<Seq<u8>>,
) -> Option<(Seq<u8>, ItemModel)> {
    match spec_split_extension(name) {
        None => None,
        Some(be) => if spec_ext_allowed(exts, be.1) {
            let item_rpath = if be.0 == index_name() {
                rpath
            } else {
                rpath.push(be.0)
            };
            Some(
                (
                    name,
                    ItemModel {
                        is_api: spec_is_inside(item_rpath, api_root),
                        project_path: ppath.push(name),
                        next_router_path: item_rpath,
                        specificity: refined_specificity(spc, name, position),
                    },
                ),
            )
        } else {
            None
        },
    }
}

/// The item pair a directory entry contributes: file entries only.
pub open spec fn entry_item_pair(
    e: FsEntry,
    ppath: Seq<Seq<u8>>,
    rpath: Seq<Seq<u8>>,
    spc: Seq<SpecificityElement>,
    position: u32,
    api_root: Seq<Seq<u8>>,
    exts: Seq<Seq<u8>>,
) -> Option<(Seq<u8>, ItemModel)> {
    match e {
        FsEntry::File { name } => file_pair(name@, ppath, rpath, spc, position, api_root, exts),
        _ => None,
    }
}

/// The sorted item pairs of a listing: each qualifying file, inserted in name
/// order.
pub open spec fn item_pairs(
    entries: Seq<FsEntry>,
    ppath: Seq<Seq<u8>>,
    rpath: Seq<Seq<u8>>,
    spc: Seq<SpecificityElement>,
    position: u32,
    api_root: Seq<Seq<u8>>,
    exts: Seq<Seq<u8>>,
) -> Seq<(Seq<u8>, ItemModel)>
    decreases entries.len(),
{
    if entries.len() == 0 {
        Seq::empty()
    } else {
        let prev = item_pairs(entries.drop_last(), ppath, rpath, spc, position, api_root, exts);
        match entry_item_pair(entries.last(), ppath, rpath, spc, position, api_root, exts) {
            Some(p) => insert_pair(prev, p),
            None => prev,
        }
    }
}

/// The depth handed to a subdirectory's walk.
pub open spec fn next_position(position: u32) -> u32 {
    if position < u32::MAX {
        (position + 1) as u32
    } else {
        u32::MAX
    }
}

/// The sorted child pairs of the first `i` entries of `d`: each subdirectory's
/// walked subtree, inserted in name order.
pub open spec fn child_pairs(
    d: DirSnapshot,
    i: int,
    ppath: Seq<Seq<u8>>,
    rpath: Seq<Seq<u8>>,
    spc: Seq<SpecificityElement>,
    position: u32,
    api_root: Seq<Seq<u8>>,
    exts: Seq<Seq<u8>>,
) -> Seq<(Seq<u8>, StructureModel)>
    decreases d, i,
{
    if i <= 0 || i > d.entries@.len() {
        Seq::empty()
    } else {
        let prev = child_pairs(d, i - 1, ppath, rpath, spc, position, api_root, exts);
        match d.entries@[i - 1] {
            FsEntry::Dir { name, content } => insert_pair(
                prev,
                (
                    name@,
                    walk_spec(
                        content,
                        ppath.push(name@),
                        rpath.push(name@),
                        refined_specificity(spc, name@, position),
                        next_position(position),
                        api_root,
                        exts,
                    ),
                ),
            ),
            _ => prev,
        }
    }
}

/// Drops the names off a sorted pair list.
pub open spec fn strip_names<T>(s: Seq<(Seq<u8>, T)>) -> Seq<T> {
    Seq::new(s.len(), |i: int| s[i].1)
}

/// What the walk of a directory snapshot produces: one node carrying the
/// directory's own path, its qualifying files as route items sorted by file
/// name, and its subdirectories' walks sorted by directory name.
pub open spec fn walk_spec(
    d: DirSnapshot,
    ppath: Seq<Seq<u8>>,
    rpath: Seq<Seq<u8>>,
    spc: Seq<SpecificityElement>,
    position: u32,
    api_root: Seq<Seq<u8>>,
    exts: Seq<Seq<u8>>,
) -> StructureModel
    decreases d, d.entries@.len() + 1,
{
    StructureModel {
        project_path: ppath,
        items: strip_names(item_pairs(d.entries@, ppath, rpath, spc, position, api_root, exts)),
        children: strip_names(
            child_pairs(
                d,
                d.entries@.len() as int,
                ppath,
                rpath,
                spc,
                position,
                api_root,
                exts,
            ),
        ),
    }
}

/// `p` inserted into a list of owned pairs before the first pair whose name
/// orders after it; the owned-pair image of `insert_pair`.
pub open spec fn insert_raw<T>(s: Seq<(Vec<u8>, T)>, p: (Vec<u8>, T)) -> Seq<(Vec<u8>, T)>
    decreases s.len(),
{
    if s.len() == 0 {
        seq![p]
    } else if lex_lt(p.0@, s[0].0@) {
        seq![p] + s
    } else {
        seq![s[0]] + insert_raw(s.drop_first(), p)
    }
}

/// `insert_raw` splices `p` in at its insertion point.
proof fn lemma_insert_raw_split<T>(s: Seq<(Vec<u8>, T)>, p: (Vec<u8>, T), j: int)
    requires
        0 <= j <= s.len(),
        forall|k: int| 0 <= k < j ==> !lex_lt(p.0@, s[k].0@),
        j < s.len() ==> lex_lt(p.0@, s[j].0@),
    ensures
        insert_raw(s, p) == s.take(j) + seq![p] + s.skip(j),
    decreases s.len(),
{
    if s.len() == 0 {
        assert(insert_raw(s, p) =~= s.take(j) + seq![p] + s.skip(j));
    } else if lex_lt(p.0@, s[0].0@) {
        assert(j == 0);
        assert(seq![p] + s =~= s.take(0) + seq![p] + s.skip(0));
    } else {
        assert(j >= 1);
        let t = s.drop_first();
        assert forall|k: int| 0 <= k < j - 1 implies !lex_lt(p.0@, t[k].0@) by {
            assert(t[k] == s[k + 1]);
        }
        lemma_insert_raw_split(t, p, j - 1);
        assert(seq![s[0]] + (t.take(j - 1) + seq![p] + t.skip(j - 1)) =~= s.take(j) + seq![p]
            + s.skip(j));
    }
}

/// Inserts `(name, value)` into a name-sorted vector, keeping it sorted.
fn insert_sorted_by_name<T>(v: &mut Vec<(Vec<u8>, T)>, name: Vec<u8>, value: T)
    ensures
        final(v)@ == insert_raw(old(v)@, (name, value)),
{
    let ghost p = (name, value);
    let mut j: usize = 0;
    loop
        invariant
            j <= v@.len(),
            v@ == old(v)@,
            p.0@ == name@,
            forall|k: int| 0 <= k < j ==> !lex_lt(name@, v@[k].0@),
        ensures
            j <= v@.len(),
            v@ == old(v)@,
            forall|k: int| 0 <= k < j ==> !lex_lt(name@, v@[k].0@),
            j < v@.len() ==> lex_lt(name@, v@[j as int].0@),
        decreases v@.len() - j,
    {
        if j == v.len() {
            break;
        }
        if crate::bytes::bytes_lt(&name, &v[j].0) {
            break;
        }
        j = j + 1;
    }
    proof {
        lemma_insert_raw_split(v@, p, j as int);
    }
    v.insert(j, (name, value));
    proof {
        assert(v@ =~= old(v)@.take(j as int) + seq![p] + old(v)@.skip(j as int));
    }
}

/// The name-and-model image of a vector of owned item pairs.
pub open spec fn item_pairs_view(s: Seq<(Vec<u8>, PagesStructureItem)>) -> Seq<
    (Seq<u8>, ItemModel),
> {
    Seq::new(s.len(), |i: int| (s[i].0@, s[i].1@))
}

/// The name-and-model image of a vector of owned child pairs.
pub open spec fn child_pairs_view(s: Seq<(Vec<u8>, PagesStructure)>) -> Seq<
    (Seq<u8>, StructureModel),
> {
    Seq::new(s.len(), |i: int| (s[i].0@, structure_model(s[i].1)))
}

/// Owned insertion and model-level insertion commute, for item pairs.
proof fn lemma_insert_raw_item_view(
    s: Seq<(Vec<u8>, PagesStructureItem)>,
    p: (Vec<u8>, PagesStructureItem),
)
    ensures
        item_pairs_view(insert_raw(s, p)) == insert_pair(item_pairs_view(s), (p.0@, p.1@)),
    decreases s.len(),
{
    if s.len() == 0 {
        assert(item_pairs_view(insert_raw(s, p)) =~= insert_pair(
            item_pairs_view(s),
            (p.0@, p.1@),
        ));
    } else if lex_lt(p.0@, s[0].0@) {
        assert(item_pairs_view(seq![p] + s) =~= seq![(p.0@, p.1@)] + item_pairs_view(s));
    } else {
        lemma_insert_raw_item_view(s.drop_first(), p);
        assert(item_pairs_view(s).drop_first() =~= item_pairs_view(s.drop_first()));
        assert(item_pairs_view(seq![s[0]] + insert_raw(s.drop_first(), p)) =~= seq![
            (s[0].0@, s[0].1@),
        ] + item_pairs_view(insert_raw(s.drop_first(), p)));
        assert(insert_pair(item_pairs_view(s), (p.0@, p.1@)) =~= seq![(s[0].0@, s[0].1@)]
            + insert_pair(item_pairs_view(s.drop_first()), (p.0@, p.1@)));
    }
}

/// Owned insertion and model-level insertion commute, for child pairs.
proof fn lemma_insert_raw_child_view(s: Seq<(Vec<u8>, PagesStructure)>, p: (Vec<u8>, PagesStructure))
    ensures
        child_pairs_view(insert_raw(s, p)) == insert_pair(
            child_pairs_view(s),
            (p.0@, structure_model(p.1)),
        ),
    decreases s.len(),
{
    if s.len() == 0 {
        assert(child_pairs_view(insert_raw(s, p)) =~= insert_pair(
            child_pairs_view(s),
            (p.0@, structure_model(p.1)),
        ));
    } else if lex_lt(p.0@, s[0].0@) {
        assert(child_pairs_view(seq![p] + s) =~= seq![(p.0@, structure_model(p.1))]
            + child_pairs_view(s));
    } else {
        lemma_insert_raw_child_view(s.drop_first(), p);
        assert(child_pairs_view(s).drop_first() =~= child_pairs_view(s.drop_first()));
        assert(child_pairs_view(seq![s[0]] + insert_raw(s.drop_first(), p)) =~= seq![
            (s[0].0@, structure_model(s[0].1)),
        ] + child_pairs_view(insert_raw(s.drop_first(), p)));
        assert(insert_pair(child_pairs_view(s), (p.0@, structure_model(p.1))) =~= seq![
            (s[0].0@, structure_model(s[0].1)),
        ] + insert_pair(child_pairs_view(s.drop_first()), (p.0@, structure_model(p.1))));
    }
}

/// The basename `index`, as an owned byte string.
fn index_name_vec() -> (v: Vec<u8>)
    ensures
        v@ == index_name(),
{
    let mut v: Vec<u8> = Vec::new();
    v.push(105u8);
    v.push(110u8);
    v.push(100u8);
    v.push(101u8);
    v.push(120u8);
    proof {
        assert(v@ =~= index_name());
    }
    v
}

/// The models of a list of route items, in order.
pub open spec fn items_view(s: Seq<PagesStructureItem>) -> Seq<ItemModel> {
    Seq::new(s.len(), |i: int| s[i]@)
}

/// The models of a list of child nodes, in order.
pub open spec fn children_view(s: Seq<PagesStructure>) -> Seq<StructureModel> {
    Seq::new(s.len(), |i: int| structure_model(s[i]))
}

/// Walks one directory of the pages tree (or the pages root itself) into its
/// `PagesStructure` node, recursing into subdirectories; `position` is the
/// node's depth below the pages root.  The result is exactly `walk_spec` of
/// the snapshot: qualifying files become items, subdirectories become
/// children, both sorted strictly ascending by entry name regardless of the
/// snapshot's listing order.
#[verifier::rlimit(60)]
pub fn get_pages_structure_for_directory(
    dir: &DirSnapshot,
    project_path: &FsPath,
    next_router_path: &FsPath,
    specificity: &Specificity,
    position: u32,
    next_router_api_root: &FsPath,
    page_extensions: &Vec<Vec<u8>>,
) -> (r: PagesStructure)
    requires
        position as int + dir_height(*dir) <= u32::MAX as int,
    ensures
        r@ == walk_spec(
            *dir,
            project_path@,
            next_router_path@,
            specificity@,
            position,
            next_router_api_root@,
            page_extensions.deep_view(),
        ),
    decreases *dir,
{
    let ghost pp = project_path@;
    let ghost rp = next_router_path@;
    let ghost sp = specificity@;
    let ghost ar = next_router_api_root@;
    let ghost ex = page_extensions.deep_view();

    let mut item_pairs_v: Vec<(Vec<u8>, PagesStructureItem)> = Vec::new();
    let mut child_pairs_v: Vec<(Vec<u8>, PagesStructure)> = Vec::new();
    proof {
        assert(item_pairs_view(item_pairs_v@) =~= item_pairs(
            dir.entries@.take(0),
            pp,
            rp,
            sp,
            position,
            ar,
            ex,
        ));
        assert(child_pairs_view(child_pairs_v@) =~= child_pairs(
            *dir,
            0,
            pp,
            rp,
            sp,
            position,
            ar,
            ex,
        ));
    }
    let mut i: usize = 0;
    while i < dir.entries.len()
        invariant
            i <= dir.entries@.len(),
            position as int + dir_height(*dir) <= u32::MAX as int,
            pp == project_path@,
            rp == next_router_path@,
            sp == specificity@,
            ar == next_router_api_root@,
            ex == page_extensions.deep_view(),
            item_pairs_view(item_pairs_v@) == item_pairs(
                dir.entries@.take(i as int),
                pp,
                rp,
                sp,
                position,
                ar,
                ex,
            ),
            child_pairs_view(child_pairs_v@) == child_pairs(
                *dir,
                i as int,
                pp,
                rp,
                sp,
                position,
                ar,
                ex,
            ),
        decreases dir.entries@.len() - i,
    {
        let ghost pre_items = item_pairs_view(item_pairs_v@);
        let ghost pre_children = child_pairs_view(child_pairs_v@);
        proof {
            assert(dir.entries@.take(i + 1).drop_last() =~= dir.entries@.take(i as int));
            assert(dir.entries@.take(i + 1).last() == dir.entries@[i as int]);
        }
        let entry = &dir.entries[i];
        match entry {
            FsEntry::File { name } => {
                let split = split_extension(name);
                match split {
                    Some((base, ext)) => {
                        if ext_allowed(page_extensions, &ext) {
                            let refined = refine_specificity(specificity, name, position);
                            let idx = index_name_vec();
                            let is_index = bytes_eq(&base, &idx);
                            let item_rpath = if is_index {
                                next_router_path.duplicate()
                            } else {
                                next_router_path.join(&base)
                            };
                            let is_api = item_rpath.is_inside(next_router_api_root);
                            let item_ppath = project_path.join(name);
                            let item = PagesStructureItem::new(
                                item_ppath,
                                item_rpath,
                                refined,
                                is_api,
                            );
                            let key = clone_bytes(name);
                            proof {
                                lemma_insert_raw_item_view(item_pairs_v@, (key, item));
                                assert(entry_item_pair(
                                    dir.entries@[i as int],
                                    pp,
                                    rp,
                                    sp,
                                    position,
                                    ar,
                                    ex,
                                ) == Some((name@, item@)));
                            }
                            insert_sorted_by_name(&mut item_pairs_v, key, item);
                        } else {
                            proof {
                                assert(entry_item_pair(
                                    dir.entries@[i as int],
                                    pp,
                                    rp,
                                    sp,
                                    position,
                                    ar,
                                    ex,
                                ) is None);
                            }
                        }
                    },
                    None => {
                        proof {
                            assert(entry_item_pair(
                                dir.entries@[i as int],
                                pp,
                                rp,
                                sp,
                                position,
                                ar,
                                ex,
                            ) is None);
                        }
                    },
                }
            },
            FsEntry::Dir { name, content } => {
                proof {
                    lemma_subdir_height(*dir, i as int);
                }
                let refined = refine_specificity(specificity, name, position);
                let child_pp = project_path.join(name);
                let child_rp = next_router_path.join(name);
                let child = get_pages_structure_for_directory(
                    content,
                    &child_pp,
                    &child_rp,
                    &refined,
                    position + 1,
                    next_router_api_root,
                    page_extensions,
                );
                let key = clone_bytes(name);
                proof {
                    lemma_insert_raw_child_view(child_pairs_v@, (key, child));
                    assert(next_position(position) == position + 1);
                }
                insert_sorted_by_name(&mut child_pairs_v, key, child);
            },
            FsEntry::Other { .. } => {},
        }
        proof {
            assert(item_pairs(dir.entries@.take(i + 1), pp, rp, sp, position, ar, ex)
                == item_pairs_view(item_pairs_v@));
            assert(child_pairs(*dir, i + 1, pp, rp, sp, position, ar, ex) == child_pairs_view(
                child_pairs_v@,
            ));
        }
        i = i + 1;
    }
    proof {
        assert(dir.entries@.take(dir.entries@.len() as int) =~= dir.entries@);
    }
    let ghost ip = item_pairs(dir.entries@, pp, rp, sp, position, ar, ex);
    let ghost cp = child_pairs(*dir, dir.entries@.len() as int, pp, rp, sp, position, ar, ex);

    let mut items: Vec<PagesStructureItem> = Vec::new();
    proof {
        assert(items_view(items@) + strip_names(item_pairs_view(item_pairs_v@)) =~= strip_names(
            ip,
        ));
    }
    while item_pairs_v.len() > 0
        invariant
            ip == item_pairs(dir.entries@, pp, rp, sp, position, ar, ex),
            items_view(items@) + strip_names(item_pairs_view(item_pairs_v@)) == strip_names(ip),
        decreases item_pairs_v@.len(),
    {
        let ghost pre = item_pairs_v@;
        let pair = item_pairs_v.remove(0);
        items.push(pair.1);
        proof {
            assert(item_pairs_view(item_pairs_v@) =~= item_pairs_view(pre).drop_first());
            assert(items_view(items@) + strip_names(item_pairs_view(item_pairs_v@)) =~= strip_names(
                ip,
            ));
        }
    }
    let mut children: Vec<PagesStructure> = Vec::new();
    proof {
        assert(children_view(children@) + strip_names(child_pairs_view(child_pairs_v@))
            =~= strip_names(cp));
    }
    while child_pairs_v.len() > 0
        invariant
            cp == child_pairs(*dir, dir.entries@.len() as int, pp, rp, sp, position, ar, ex),
            children_view(children@) + strip_names(child_pairs_view(child_pairs_v@))
                == strip_names(cp),
        decreases child_pairs_v@.len(),
    {
        let ghost pre = child_pairs_v@;
        let pair = child_pairs_v.remove(0);
        children.push(pair.1);
        proof {
            assert(child_pairs_view(child_pairs_v@) =~= child_pairs_view(pre).drop_first());
            assert(children_view(children@) + strip_names(child_pairs_view(child_pairs_v@))
                =~= strip_names(cp));
        }
    }
    let r = PagesStructure { project_path: project_path.duplicate(), items, children };
    proof {
        assert(items_view(r.items@) =~= items_view(r.items@) + strip_names(
            item_pairs_view(Seq::<(Vec<u8>, PagesStructureItem)>::empty()),
        ));
        assert(children_view(r.children@) =~= children_view(r.children@) + strip_names(
            child_pairs_view(Seq::<(Vec<u8>, PagesStructure)>::empty()),
        ));
        lemma_children_models(r, r.children@.len() as int);
        assert(children_models(r, r.children@.len() as int) =~= children_view(r.children@));
        assert(structure_model(r) =~= walk_spec(*dir, pp, rp, sp, position, ar, ex));
    }
    r
}

impl View for OptionPagesStructure {
    type V = Option<StructureModel>;

    open spec fn view(&self) -> Option<StructureModel> {
        match self.0 {
            Some(s) => Some(structure_model(s)),
            None => None,
        }
    }
}

/// The directory name `pages`.
pub open spec fn pages_name() -> Seq<u8> {
    seq![112u8, 97u8, 103u8, 101u8, 115u8]
}

/// The directory name `src`.
pub open spec fn src_name() -> Seq<u8> {
    seq![115u8, 114u8, 99u8]
}

/// The path segment `api`, the root of API routes below the router root.
pub open spec fn api_name() -> Seq<u8> {
    seq![97u8, 112u8, 105u8]
}

/// The first subdirectory entry of `entries` named `target`, if any.  Entries
/// of other kinds never match, as only a directory can be a pages root.
pub open spec fn lookup_dir(entries: Seq<FsEntry>, target: Seq<u8>) -> Option<DirSnapshot>
    decreases entries.len(),
{
    if entries.len() == 0 {
        None
    } else {
        match entries[0] {
            FsEntry::Dir { name, content } => if name@ == target {
                Some(content)
            } else {
                lookup_dir(entries.drop_first(), target)
            },
            _ => lookup_dir(entries.drop_first(), target),
        }
    }
}

/// A found directory is the content of some directory entry.
proof fn lemma_lookup_dir_member(entries: Seq<FsEntry>, target: Seq<u8>)
    requires
        lookup_dir(entries, target) is Some,
    ensures
        exists|i: int|
            0 <= i < entries.len() && entries[i] is Dir && entries[i]->Dir_content == lookup_dir(
                entries,
                target,
            )->Some_0,
    decreases entries.len(),
{
    let found = lookup_dir(entries, target)->Some_0;
    match entries[0] {
        FsEntry::Dir { name, content } => {
            if name@ == target {
                assert(entries[0] is Dir && entries[0]->Dir_content == found);
            } else {
                lemma_lookup_dir_member(entries.drop_first(), target);
                let i = choose|i: int|
                    0 <= i < entries.drop_first().len() && entries.drop_first()[i] is Dir
                        && entries.drop_first()[i]->Dir_content == found;
                assert(entries[i + 1] is Dir && entries[i + 1]->Dir_content == found);
            }
        },
        _ => {
            lemma_lookup_dir_member(entries.drop_first(), target);
            let i = choose|i: int|
                0 <= i < entries.drop_first().len() && entries.drop_first()[i] is Dir
                    && entries.drop_first()[i]->Dir_content == found;
            assert(entries[i + 1] is Dir && entries[i + 1]->Dir_content == found);
        },
    }
}

/// A found directory sits strictly below the directory it was found in.
proof fn lemma_lookup_dir_height(d: DirSnapshot, target: Seq<u8>)
    requires
        lookup_dir(d.entries@, target) is Some,
    ensures
        dir_height(lookup_dir(d.entries@, target)->Some_0) + 1 <= dir_height(d),
{
    lemma_lookup_dir_member(d.entries@, target);
    let i = choose|i: int|
        0 <= i < d.entries@.len() && d.entries@[i] is Dir && d.entries@[i]->Dir_content
            == lookup_dir(d.entries@, target)->Some_0;
    lemma_subdir_height(d, i);
}

/// Finds the first subdirectory entry named `target`.
fn find_dir_entry<'a>(d: &'a DirSnapshot, target: &Vec<u8>) -> (r: Option<&'a DirSnapshot>)
    ensures
        match r {
            Some(c) => lookup_dir(d.entries@, target@) == Some(*c),
            None => lookup_dir(d.entries@, target@) is None,
        },
{
    let mut i: usize = 0;
    proof {
        assert(d.entries@.skip(0) =~= d.entries@);
    }
    loop
        invariant
            i <= d.entries@.len(),
            lookup_dir(d.entries@, target@) == lookup_dir(d.entries@.skip(i as int), target@),
        decreases d.entries@.len() - i,
    {
        if i == d.entries.len() {
            return None;
        }
        let entry = &d.entries[i];
        proof {
            assert(d.entries@.skip(i as int)[0] == d.entries@[i as int]);
            assert(d.entries@.skip(i as int).drop_first() =~= d.entries@.skip(i + 1));
        }
        match entry {
            FsEntry::Dir { name, content } => {
                if bytes_eq(name, target) {
                    return Some(content);
                }
            },
            _ => {},
        }
        i = i + 1;
    }
}

/// Where the route tree of a project comes from: the `pages` directory of the
/// project root if there is one, else `src/pages`, else nowhere — and the
/// walk of that directory, rooted at the router root, with exact baseline
/// specificity, depth 0, and `<router root>/api` as the API root.
pub open spec fn find_spec(
    root: DirSnapshot,
    project_root: Seq<Seq<u8>>,
    router_root: Seq<Seq<u8>>,
    exts: Seq<Seq<u8>>,
) -> Option<StructureModel> {
    let api_root = router_root.push(api_name());
    match lookup_dir(root.entries@, pages_name()) {
        Some(pages) => Some(
            walk_spec(
                pages,
                project_root.push(pages_name()),
                router_root,
                Seq::empty(),
                0,
                api_root,
                exts,
            ),
        ),
        None => match lookup_dir(root.entries@, src_name()) {
            Some(src) => match lookup_dir(src.entries@, pages_name()) {
                Some(pages) => Some(
                    walk_spec(
                        pages,
                        project_root.push(src_name()).push(pages_name()),
                        router_root,
                        Seq::empty(),
                        0,
                        api_root,
                        exts,
                    ),
                ),
                None => None,
            },
            None => None,
        },
    }
}

/// The directory name `pages`, as an owned byte string.
fn pages_name_vec() -> (v: Vec<u8>)
    ensures
        v@ == pages_name(),
{
    let mut v: Vec<u8> = Vec::new();
    v.push(112u8);
    v.push(97u8);
    v.push(103u8);
    v.push(101u8);
    v.push(115u8);
    proof {
        assert(v@ =~= pages_name());
    }
    v
}

/// The directory name `src`, as an owned byte string.
fn src_name_vec() -> (v: Vec<u8>)
    ensures
        v@ == src_name(),
{
    let mut v: Vec<u8> = Vec::new();
    v.push(115u8);
    v.push(114u8);
    v.push(99u8);
    proof {
        assert(v@ =~= src_name());
    }
    v
}

/// The path segment `api`, as an owned byte string.
fn api_name_vec() -> (v: Vec<u8>)
    ensures
        v@ == api_name(),
{
    let mut v: Vec<u8> = Vec::new();
    v.push(97u8);
    v.push(112u8);
    v.push(105u8);
    proof {
        assert(v@ =~= api_name());
    }
    v
}

/// Finds the pages root of a project — `pages/` under the project root, or
/// failing that `src/pages/` — and walks it into the route tree.  A project
/// with neither directory yields `None`: absence is a valid state, not a
/// failure.
pub fn find_pages_structure(
    project_root_dir: &DirSnapshot,
    project_root: &FsPath,
    next_router_root: &FsPath,
    page_extensions: &Vec<Vec<u8>>,
) -> (r: OptionPagesStructure)
    requires
        dir_height(*project_root_dir) <= u32::MAX as int,
    ensures
        r@ == find_spec(
            *project_root_dir,
            project_root@,
            next_router_root@,
            page_extensions.deep_view(),
        ),
{
    let pages_key = pages_name_vec();
    let api_key = api_name_vec();
    let api_root = next_router_root.join(&api_key);
    let spc = Specificity::exact();
    match find_dir_entry(project_root_dir, &pages_key) {
        Some(pages) => {
            proof {
                lemma_lookup_dir_height(*project_root_dir, pages_name());
            }
            let pages_pp = project_root.join(&pages_key);
            let s = get_pages_structure_for_directory(
                pages,
                &pages_pp,
                next_router_root,
                &spc,
                0,
                &api_root,
                page_extensions,
            );
            OptionPagesStructure(Some(s))
        },
        None => {
            let src_key = src_name_vec();
            match find_dir_entry(project_root_dir, &src_key) {
                Some(src) => {
                    proof {
                        lemma_lookup_dir_height(*project_root_dir, src_name());
                    }
                    match find_dir_entry(src, &pages_key) {
                        Some(pages) => {
                            proof {
                                lemma_lookup_dir_height(*src, pages_name());
                            }
                            let src_pp = project_root.join(&src_key);
                            let pages_pp = src_pp.join(&pages_key);
                            let s = get_pages_structure_for_directory(
                                pages,
                                &pages_pp,
                                next_router_root,
                                &spc,
                                0,
                                &api_root,
                                page_extensions,
                            );
                            OptionPagesStructure(Some(s))
                        },
                        None => OptionPagesStructure(None),
                    }
                },
                None => OptionPagesStructure(None),
            }
        },
    }
}

} // verus!
