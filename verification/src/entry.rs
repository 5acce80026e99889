//! The slots of the flattened tree: directories and files.

use vstd::prelude::*;

verus! {

/// One slot of the flattened, pre-order tree: either a directory or a file.
///
/// Both shapes carry a `name` (an opaque, totally-ordered path-segment
/// identifier; how callers encode their platform's names into it is their
/// concern), a `symlink` flag and an `ignored` flag. A directory additionally
/// records `span`, the number of array slots occupied by the directory itself
/// plus its whole subtree (at least 1), and `last_entry_span`, the span of its
/// last immediate child in sorted order, or 0 when it has no children. A file
/// always occupies exactly one slot, so its span is not stored.
#[derive(Clone, Copy, PartialEq, Eq, Structural, Debug)]
pub enum Entry {
    Dir { name: u64, symlink: bool, ignored: bool, span: usize, last_entry_span: usize },
    File { name: u64, symlink: bool, ignored: bool },
}

impl Entry {
    /// The path-segment identifier of this entry.
    pub open spec fn spec_name(self) -> u64 {
        match self {
            Entry::Dir { name, .. } => name,
            Entry::File { name, .. } => name,
        }
    }

    /// Number of array slots occupied by this entry and, for a directory,
    /// its entire subtree.
    pub open spec fn spec_span(self) -> int {
        match self {
            Entry::Dir { span, .. } => span as int,
            Entry::File { .. } => 1,
        }
    }

    /// The stored `last_entry_span` counter of a directory (0 for a file).
    pub open spec fn spec_last_entry_span(self) -> int {
        match self {
            Entry::Dir { last_entry_span, .. } => last_entry_span as int,
            Entry::File { .. } => 0,
        }
    }

    pub open spec fn is_dir(self) -> bool {
        self is Dir
    }

    /// The entry as it is stored when first inserted: insertion only ever adds
    /// a single slot, so a new directory starts empty, with its counters reset
    /// to span 1 (its own slot) and no last child.
    pub open spec fn norm(self) -> Entry {
        match self {
            Entry::Dir { name, symlink, ignored, .. } => Entry::Dir {
                name,
                symlink,
                ignored,
                span: 1,
                last_entry_span: 0,
            },
            Entry::File { .. } => self,
        }
    }

    pub fn name(&self) -> (n: u64)
        ensures
            n == self.spec_name(),
    {
        match self {
            Entry::Dir { name, .. } => *name,
            Entry::File { name, .. } => *name,
        }
    }

    pub fn span(&self) -> (n: usize)
        ensures
            n as int == self.spec_span(),
    {
        match self {
            Entry::Dir { span, .. } => *span,
            Entry::File { .. } => 1,
        }
    }
}

} // verus!
