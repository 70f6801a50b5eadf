//! A plain-value snapshot of a directory tree.
//!
//! The file-system collaborator delivers directory listings; this module is
//! their in-memory image: one entry per name, a file, a subdirectory (with its
//! own snapshot) or something else (a symlink, say), which the walk ignores.
//! Listing order is deliberately arbitrary — the walk must not depend on it.
//! A well-formed snapshot has distinct names within each directory, as a real
//! directory listing does.

use vstd::prelude::*;

verus! {

/// One entry of a directory listing.
pub enum FsEntry {
    /// A plain file.
    File { name: Vec<u8> },
    /// A subdirectory and the snapshot of its contents.
    Dir { name: Vec<u8>, content: DirSnapshot },
    /// Any other kind of entry; never part of the route tree.
    Other { name: Vec<u8> },
}

/// The snapshot of one directory's contents, in no particular order.
pub struct DirSnapshot {
    pub entries: Vec<FsEntry>,
}

/// The name of a directory entry.
pub open spec fn entry_name(e: FsEntry) -> Seq<u8> {
    match e {
        FsEntry::File { name } => name@,
        FsEntry::Dir { name, .. } => name@,
        FsEntry::Other { name } => name@,
    }
}

/// The names in `entries` are pairwise distinct.
pub open spec fn distinct_names(entries: Seq<FsEntry>) -> bool {
    forall|i: int, j: int|
        0 <= i < j < entries.len() ==> entry_name(entries[i]) != entry_name(entries[j])
}

/// A snapshot is well formed when every directory, at every depth, lists
/// pairwise distinct names.
pub open spec fn dir_wf(d: DirSnapshot) -> bool
    decreases d,
{
    &&& distinct_names(d.entries@)
    &&& forall|i: int|
        0 <= i < d.entries@.len() ==> match #[trigger] d.entries@[i] {
            FsEntry::Dir { content, .. } => dir_wf(content),
            _ => true,
        }
}

/// The greatest contribution of the first `i` entries to the directory's
/// height: a subdirectory contributes one more than its own height.
pub open spec fn entries_height(d: DirSnapshot, i: int) -> nat
    decreases d, i,
{
    if i <= 0 || i > d.entries@.len() {
        0
    } else {
        let prev = entries_height(d, i - 1);
        let here: nat = match d.entries@[i - 1] {
            FsEntry::Dir { content, .. } => dir_height(content) + 1,
            _ => 0,
        };
        if here > prev {
            here
        } else {
            prev
        }
    }
}

/// The height of a directory snapshot: 0 for a directory without
/// subdirectories, else one more than its deepest subdirectory.
pub open spec fn dir_height(d: DirSnapshot) -> nat
    decreases d, d.entries@.len() + 1,
{
    entries_height(d, d.entries@.len() as int)
}

/// Every subdirectory entry is strictly lower than the directory around it.
pub proof fn lemma_subdir_height(d: DirSnapshot, i: int)
    requires
        0 <= i < d.entries@.len(),
        d.entries@[i] is Dir,
    ensures
        dir_height(d.entries@[i]->Dir_content) + 1 <= dir_height(d),
{
    lemma_entries_height_monotonic(d, i + 1, d.entries@.len() as int);
}

/// `entries_height` grows with its index.
proof fn lemma_entries_height_monotonic(d: DirSnapshot, i: int, j: int)
    requires
        0 <= i <= j <= d.entries@.len(),
    ensures
        entries_height(d, i) <= entries_height(d, j),
    decreases j,
{
    if i < j {
        lemma_entries_height_monotonic(d, i, j - 1);
    }
}

} // verus!
