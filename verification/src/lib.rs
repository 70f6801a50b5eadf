//! Discovery of the routable pages of a file-system based web project.
//!
//! Given a snapshot of a project's directory tree, the library locates the
//! pages root (`pages/` or `src/pages/`), walks it recursively, and produces a
//! deterministic, precedence-ordered route tree: one [`structure::PagesStructure`]
//! node per directory, one [`structure::PagesStructureItem`] per qualifying
//! page or API-route file.  A separate change-propagation protocol lets a
//! consumer ask whether any route in a subtree changed since it last looked,
//! without re-reading the tree.

pub mod bytes;
pub mod sorted;
pub mod changes;
pub mod laws;
pub mod paths;
pub mod snapshot;
pub mod specificity;
pub mod structure;
