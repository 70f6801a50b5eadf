use pages_structure::changes::ChangeTracker;
use pages_structure::paths::FsPath;
use pages_structure::snapshot::DirSnapshot;
use pages_structure::snapshot::FsEntry;
use pages_structure::specificity::MarkerKind;
use pages_structure::specificity::Specificity;
use pages_structure::structure::classify_segment;
use pages_structure::structure::find_pages_structure;
use pages_structure::structure::get_pages_structure_for_directory;
use pages_structure::structure::OptionPagesStructure;
use pages_structure::structure::PagesStructure;
use pages_structure::structure::PagesStructureItem;
use pages_structure::structure::SegmentClass;

fn n(s: &str) -> Vec<u8> {
    s.as_bytes().to_vec()
}

fn file(s: &str) -> FsEntry {
    FsEntry::File { name: n(s) }
}

fn sub(s: &str, entries: Vec<FsEntry>) -> FsEntry {
    FsEntry::Dir { name: n(s), content: DirSnapshot { entries } }
}

fn other(s: &str) -> FsEntry {
    FsEntry::Other { name: n(s) }
}

fn snapshot(entries: Vec<FsEntry>) -> DirSnapshot {
    DirSnapshot { entries }
}

fn path(segs: &[&str]) -> FsPath {
    let mut v: Vec<Vec<u8>> = Vec::new();
    for s in segs {
        v.push(n(s));
    }
    FsPath { segments: v }
}

fn exts() -> Vec<Vec<u8>> {
    vec![n("tsx"), n("ts")]
}

fn item_fields(item: &PagesStructureItem) -> (bool, &FsPath, &FsPath, &Specificity) {
    match item {
        PagesStructureItem::Page { project_path, next_router_path, specificity } => {
            (false, project_path, next_router_path, specificity)
        }
        PagesStructureItem::Api { project_path, next_router_path, specificity } => {
            (true, project_path, next_router_path, specificity)
        }
    }
}

fn segs(p: &FsPath) -> Vec<Vec<u8>> {
    p.segments.clone()
}

fn same_item(a: &PagesStructureItem, b: &PagesStructureItem) -> bool {
    let (aa, app, arp, asp) = item_fields(a);
    let (ba, bpp, brp, bsp) = item_fields(b);
    aa == ba && app.segments == bpp.segments && arp.segments == brp.segments
        && asp.elements == bsp.elements
}

fn same_tree(a: &PagesStructure, b: &PagesStructure) -> bool {
    if a.project_path.segments != b.project_path.segments {
        return false;
    }
    if a.items.len() != b.items.len() || a.children.len() != b.children.len() {
        return false;
    }
    for (x, y) in a.items.iter().zip(b.items.iter()) {
        if !same_item(x, y) {
            return false;
        }
    }
    for (x, y) in a.children.iter().zip(b.children.iter()) {
        if !same_tree(x, y) {
            return false;
        }
    }
    true
}

#[test]
fn scenario_tree() {
    // pages/index.tsx, pages/blog/[slug].tsx, pages/api/users.ts
    let root = snapshot(vec![sub(
        "pages",
        vec![
            file("index.tsx"),
            sub("blog", vec![file("[slug].tsx")]),
            sub("api", vec![file("users.ts")]),
        ],
    )]);
    let r = find_pages_structure(&root, &path(&["proj"]), &path(&[]), &exts());
    let s = r.0.expect("a pages root must be found");
    assert_eq!(s.project_path.segments, path(&["proj", "pages"]).segments);
    assert_eq!(s.project_path().segments, path(&["proj", "pages"]).segments);

    // One item at the root: index.tsx mapping to the root router path.
    assert_eq!(s.items.len(), 1);
    assert_eq!(
        s.items[0].project_path().segments,
        vec![n("proj"), n("pages"), n("index.tsx")]
    );
    assert_eq!(s.items[0].next_router_path().segments.len(), 0);
    let (is_api, pp, rp, sp) = item_fields(&s.items[0]);
    assert!(!is_api);
    assert_eq!(segs(pp), vec![n("proj"), n("pages"), n("index.tsx")]);
    assert_eq!(rp.segments.len(), 0);
    assert_eq!(sp.elements.len(), 0);

    // Two children, sorted by name: api before blog.
    assert_eq!(s.children.len(), 2);
    let api = &s.children[0];
    assert_eq!(segs(&api.project_path), vec![n("proj"), n("pages"), n("api")]);
    assert_eq!(api.items.len(), 1);
    let (is_api, _, rp, _) = item_fields(&api.items[0]);
    assert!(is_api);
    assert_eq!(segs(rp), vec![n("api"), n("users")]);

    let blog = &s.children[1];
    assert_eq!(segs(&blog.project_path), vec![n("proj"), n("pages"), n("blog")]);
    assert_eq!(blog.items.len(), 1);
    let (is_api, _, rp, sp) = item_fields(&blog.items[0]);
    assert!(!is_api);
    assert_eq!(segs(rp), vec![n("blog"), n("[slug]")]);
    // Dynamic specificity marker at depth 1.
    assert_eq!(sp.elements.len(), 1);
    assert_eq!(sp.elements[0].position, 1);
    assert!(matches!(sp.elements[0].kind, MarkerKind::Dynamic));
}

#[test]
fn index_collapses_and_basename_appends() {
    let root = snapshot(vec![sub("pages", vec![file("about.tsx"), file("index.tsx")])]);
    let r = find_pages_structure(&root, &path(&[]), &path(&[]), &exts());
    let s = r.0.unwrap();
    assert_eq!(s.items.len(), 2);
    // Sorted by file name: about.tsx before index.tsx.
    let (_, _, rp_about, _) = item_fields(&s.items[0]);
    assert_eq!(segs(rp_about), vec![n("about")]);
    let (_, _, rp_index, _) = item_fields(&s.items[1]);
    assert_eq!(rp_index.segments.len(), 0);
}

#[test]
fn specificity_ranking() {
    let exact = Specificity::exact();
    let dynamic0 = exact.with_dynamic_segment(0);
    let catch0 = exact.with_catch_all(0);
    // Catch-all ranks below dynamic at the same depth, and both below exact.
    assert!(catch0.is_less_specific_than(&dynamic0));
    assert!(!dynamic0.is_less_specific_than(&catch0));
    assert!(dynamic0.is_less_specific_than(&exact));
    assert!(catch0.is_less_specific_than(&exact));
    assert!(!exact.is_less_specific_than(&dynamic0));
    assert!(!exact.is_less_specific_than(&catch0));
    // A shallower marker ranks below a deeper one.
    let dynamic2 = exact.with_dynamic_segment(2);
    assert!(dynamic0.is_less_specific_than(&dynamic2));
    // The refinements never mutate the receiver.
    assert_eq!(exact.elements.len(), 0);
}

#[test]
fn catch_all_forms_classify_alike() {
    assert!(matches!(classify_segment(&n("[...slug]")), SegmentClass::CatchAll));
    assert!(matches!(classify_segment(&n("[[...slug]]")), SegmentClass::CatchAll));
    assert!(matches!(classify_segment(&n("[id]")), SegmentClass::Dynamic));
    assert!(matches!(classify_segment(&n("about")), SegmentClass::Fixed));
    assert!(matches!(classify_segment(&n("")), SegmentClass::Fixed));
}

#[test]
fn api_routes_classified_by_router_path() {
    let root = snapshot(vec![sub(
        "pages",
        vec![file("users.ts"), sub("api", vec![file("users.ts"), sub("v2", vec![file("more.ts")])])],
    )]);
    let r = find_pages_structure(&root, &path(&[]), &path(&[]), &exts());
    let s = r.0.unwrap();
    let (is_api, _, _, _) = item_fields(&s.items[0]);
    assert!(!is_api);
    let api = &s.children[0];
    let (is_api, _, rp, _) = item_fields(&api.items[0]);
    assert!(is_api);
    assert_eq!(segs(rp), vec![n("api"), n("users")]);
    let v2 = &api.children[0];
    let (is_api, _, rp, _) = item_fields(&v2.items[0]);
    assert!(is_api);
    assert_eq!(segs(rp), vec![n("api"), n("v2"), n("more")]);
}

#[test]
fn walk_ignores_listing_order() {
    let d1 = snapshot(vec![
        file("index.tsx"),
        file("about.tsx"),
        sub("blog", vec![file("b.tsx"), file("a.tsx")]),
        sub("api", vec![file("users.ts")]),
    ]);
    let d2 = snapshot(vec![
        sub("api", vec![file("users.ts")]),
        sub("blog", vec![file("a.tsx"), file("b.tsx")]),
        file("about.tsx"),
        file("index.tsx"),
    ]);
    let pp = path(&["pages"]);
    let rp = path(&[]);
    let ar = path(&["api"]);
    let spc = Specificity::exact();
    let t1 = get_pages_structure_for_directory(&d1, &pp, &rp, &spc, 0, &ar, &exts());
    let t2 = get_pages_structure_for_directory(&d2, &pp, &rp, &spc, 0, &ar, &exts());
    assert!(same_tree(&t1, &t2));
    // And the sorted order is the lexicographic one.
    assert_eq!(segs(&t1.children[0].project_path), vec![n("pages"), n("api")]);
    assert_eq!(segs(&t1.children[1].project_path), vec![n("pages"), n("blog")]);
    let (_, pp0, _, _) = item_fields(&t1.items[0]);
    assert_eq!(segs(pp0), vec![n("pages"), n("about.tsx")]);
}

#[test]
fn change_signal_stable_until_routes_change() {
    let pp = path(&["pages"]);
    let rp = path(&[]);
    let ar = path(&["api"]);
    let spc = Specificity::exact();
    let d1 = snapshot(vec![file("index.tsx"), sub("blog", vec![file("[slug].tsx")])]);
    let t1 = get_pages_structure_for_directory(&d1, &pp, &rp, &spc, 0, &ar, &exts());

    let mut tracker = ChangeTracker::new();
    let c1 = t1.routes_changed(&mut tracker);
    let c2 = t1.routes_changed(&mut tracker);
    // No file-system change in between: no new change indicated.
    assert!(c1.same_signal(&c2));

    // A new route deep in the subtree changes the signal at the root.
    let d2 = snapshot(vec![
        file("index.tsx"),
        sub("blog", vec![file("[slug].tsx"), file("extra.tsx")]),
    ]);
    let t2 = get_pages_structure_for_directory(&d2, &pp, &rp, &spc, 0, &ar, &exts());
    let c3 = t2.routes_changed(&mut tracker);
    assert!(!c2.same_signal(&c3));
    let c4 = t2.routes_changed(&mut tracker);
    assert!(c3.same_signal(&c4));
}

#[test]
fn change_signal_on_items_and_option() {
    let pp = path(&["pages"]);
    let rp = path(&[]);
    let ar = path(&["api"]);
    let spc = Specificity::exact();
    let d = snapshot(vec![file("index.tsx")]);
    let t = get_pages_structure_for_directory(&d, &pp, &rp, &spc, 0, &ar, &exts());

    let mut tracker = ChangeTracker::new();
    let c1 = t.items[0].routes_changed(&mut tracker);
    let c2 = t.items[0].routes_changed(&mut tracker);
    assert!(c1.same_signal(&c2));

    let mut tracker2 = ChangeTracker::new();
    let none = OptionPagesStructure(None);
    let c3 = none.routes_changed(&mut tracker2);
    let c4 = none.routes_changed(&mut tracker2);
    assert!(c3.same_signal(&c4));

    let some = OptionPagesStructure(Some(t));
    let c5 = some.routes_changed(&mut tracker2);
    assert!(!c4.same_signal(&c5));
}

#[test]
fn no_pages_root_is_not_a_failure() {
    let root = snapshot(vec![file("README.md"), sub("lib", vec![file("a.ts")])]);
    let r = find_pages_structure(&root, &path(&[]), &path(&[]), &exts());
    assert!(r.0.is_none());

    // An empty project as well.
    let empty = snapshot(vec![]);
    let r = find_pages_structure(&empty, &path(&[]), &path(&[]), &exts());
    assert!(r.0.is_none());
}

#[test]
fn src_pages_is_the_fallback() {
    // `pages` exists only as a file, so `src/pages` must be used.
    let root = snapshot(vec![
        file("pages"),
        sub("src", vec![sub("pages", vec![file("index.tsx")])]),
    ]);
    let r = find_pages_structure(&root, &path(&["proj"]), &path(&[]), &exts());
    let s = r.0.unwrap();
    assert_eq!(s.project_path.segments, path(&["proj", "src", "pages"]).segments);
    assert_eq!(s.items.len(), 1);

    // `src` exists but holds no pages directory: no structure.
    let root = snapshot(vec![sub("src", vec![file("main.rs")])]);
    let r = find_pages_structure(&root, &path(&["proj"]), &path(&[]), &exts());
    assert!(r.0.is_none());
}

#[test]
fn files_without_allowed_extension_are_skipped() {
    let root = snapshot(vec![sub(
        "pages",
        vec![
            file("README"),
            file("style.css"),
            file("a.b.tsx"),
            file("trailing."),
            other("link.tsx"),
            sub("empty", vec![]),
        ],
    )]);
    let r = find_pages_structure(&root, &path(&[]), &path(&[]), &exts());
    let s = r.0.unwrap();
    // Only a.b.tsx qualifies; the extension is the part after the last dot.
    assert_eq!(s.items.len(), 1);
    let (_, pp, rp, _) = item_fields(&s.items[0]);
    assert_eq!(segs(pp), vec![n("pages"), n("a.b.tsx")]);
    assert_eq!(segs(rp), vec![n("a.b")]);
    // The empty directory still produces a node.
    assert_eq!(s.children.len(), 1);
    assert_eq!(s.children[0].items.len(), 0);
    assert_eq!(s.children[0].children.len(), 0);
}

#[test]
fn catch_all_file_gets_catch_all_specificity() {
    let root = snapshot(vec![sub(
        "pages",
        vec![file("[...slug].tsx"), file("[[...opt]].tsx"), file("[id].tsx")],
    )]);
    let r = find_pages_structure(&root, &path(&[]), &path(&[]), &exts());
    let s = r.0.unwrap();
    assert_eq!(s.items.len(), 3);
    for item in s.items.iter() {
        let (_, pp, _, sp) = item_fields(item);
        assert_eq!(sp.elements.len(), 1);
        assert_eq!(sp.elements[0].position, 0);
        let name = pp.segments.last().unwrap().clone();
        if name == n("[id].tsx") {
            assert!(matches!(sp.elements[0].kind, MarkerKind::Dynamic));
        } else {
            assert!(matches!(sp.elements[0].kind, MarkerKind::CatchAll));
        }
    }
}
