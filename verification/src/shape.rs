//! The shape invariant of the flattened tree.
//!
//! A well-formed tree is a single pre-order array: the entry at index 0 is the
//! root directory and its span covers the whole array. Inside a directory at
//! index `i`, the immediate children are laid out contiguously from `i + 1`,
//! each child's own span saying where the next sibling begins; children of one
//! parent are strictly ascending by name, and `last_entry_span` equals the
//! span of the last child. The predicates here state that invariant over a
//! forest, the half-open slice `[lo, hi)` holding zero or more sibling
//! subtrees side by side.

use vstd::prelude::*;

use crate::entry::Entry;

verus! {

/// The slice `[lo, hi)` of `s` is a well-formed forest: a sequence of sibling
/// subtrees laid out side by side, strictly ascending by name.
pub open spec fn wf_forest(s: Seq<Entry>, lo: int, hi: int) -> bool
    decreases hi - lo, 1int,
{
    if lo >= hi {
        lo == hi
    } else {
        let sp: int = s[lo].spec_span();
        if 0 <= lo && 1 <= sp && lo + sp <= hi {
            &&& wf_node(s, lo)
            &&& (lo + sp < hi ==> s[lo].spec_name() < s[lo + sp].spec_name())
            &&& wf_forest(s, lo + sp, hi)
        } else {
            false
        }
    }
}

/// The entry at index `i` heads a well-formed subtree: a file stands alone,
/// and a directory's children form a well-formed forest filling exactly the
/// rest of its span, with `last_entry_span` equal to the last child's span.
pub open spec fn wf_node(s: Seq<Entry>, i: int) -> bool
    decreases s[i].spec_span(), 0int,
{
    &&& 0 <= i < s.len()
    &&& match s[i] {
        Entry::File { .. } => true,
        Entry::Dir { span, last_entry_span, .. } => {
            if 1 <= span && i + span <= s.len() {
                &&& wf_forest(s, i + 1, i + span)
                &&& last_entry_span == last_span(s, i + 1, i + span)
            } else {
                false
            }
        },
    }
}

/// The span of the last sibling subtree in the forest `[lo, hi)`, or 0 when
/// the forest is empty.
pub open spec fn last_span(s: Seq<Entry>, lo: int, hi: int) -> int
    decreases hi - lo,
{
    if lo >= hi {
        0
    } else {
        let sp: int = s[lo].spec_span();
        if sp < 1 {
            0
        } else if lo + sp >= hi {
            sp
        } else {
            last_span(s, lo + sp, hi)
        }
    }
}

/// The name of the last sibling in the forest `[lo, hi)` (meaningful only
/// when the forest is not empty).
pub open spec fn last_name(s: Seq<Entry>, lo: int, hi: int) -> u64
    decreases hi - lo,
{
    if lo >= hi {
        0
    } else {
        let sp: int = s[lo].spec_span();
        if sp < 1 {
            0
        } else if lo + sp >= hi {
            s[lo].spec_name()
        } else {
            last_name(s, lo + sp, hi)
        }
    }
}

/// Some sibling heading a subtree of the forest `[lo, hi)` bears the name
/// `nm`.
pub open spec fn has_name(s: Seq<Entry>, lo: int, hi: int, nm: u64) -> bool
    decreases hi - lo,
{
    if lo >= hi {
        false
    } else if s[lo].spec_name() == nm {
        true
    } else {
        let sp: int = s[lo].spec_span();
        if sp < 1 || lo + sp >= hi {
            false
        } else {
            has_name(s, lo + sp, hi, nm)
        }
    }
}

/// `p` is a boundary between sibling subtrees of the forest `[lo, hi)` (or
/// one of its two ends), every sibling left of `p` has a name below `nm`, and
/// the sibling starting at `p`, if any, has a name above `nm`: the one place
/// where an entry named `nm` can be inserted without disturbing the order.
pub open spec fn gap_ok(s: Seq<Entry>, lo: int, hi: int, p: int, nm: u64) -> bool
    decreases hi - lo,
{
    if lo >= hi {
        p == lo
    } else if p == lo {
        nm < s[lo].spec_name()
    } else {
        let sp: int = s[lo].spec_span();
        if 1 <= sp && lo + sp <= hi {
            nm > s[lo].spec_name() && gap_ok(s, lo + sp, hi, p, nm)
        } else {
            false
        }
    }
}

/// The boundary of the forest `[lo, hi)` where a sibling named `nm` belongs:
/// the start of the first sibling whose name is above `nm`, or `hi` when
/// every sibling's name is below it.
pub open spec fn insert_pos(s: Seq<Entry>, lo: int, hi: int, nm: u64) -> int
    decreases hi - lo,
{
    if lo >= hi {
        lo
    } else if nm < s[lo].spec_name() {
        lo
    } else {
        let sp: int = s[lo].spec_span();
        if sp < 1 || lo + sp > hi {
            lo
        } else {
            insert_pos(s, lo + sp, hi, nm)
        }
    }
}

/// The sum of the spans of the sibling subtrees of the forest `[lo, hi)`.
pub open spec fn sum_spans(s: Seq<Entry>, lo: int, hi: int) -> int
    decreases hi - lo,
{
    if lo >= hi {
        0
    } else {
        let sp: int = s[lo].spec_span();
        if sp < 1 || lo + sp > hi {
            0
        } else {
            sp + sum_spans(s, lo + sp, hi)
        }
    }
}

/// The names of the siblings heading the subtrees of the forest `[lo, hi)`,
/// in layout order.
pub open spec fn children_names(s: Seq<Entry>, lo: int, hi: int) -> Seq<u64>
    decreases hi - lo,
{
    if lo >= hi {
        Seq::empty()
    } else {
        let sp: int = s[lo].spec_span();
        if sp < 1 || lo + sp > hi {
            seq![s[lo].spec_name()]
        } else {
            seq![s[lo].spec_name()] + children_names(s, lo + sp, hi)
        }
    }
}

/// The whole array is a well-formed tree: non-empty, headed by the root
/// directory, whose span covers every slot.
pub open spec fn tree_wf(s: Seq<Entry>) -> bool {
    &&& 1 <= s.len()
    &&& s[0] is Dir
    &&& s[0].spec_span() == s.len()
    &&& wf_node(s, 0)
}

/// An entry as it may be inserted: a file, or a freshly-created empty
/// directory (span 1, no children).
pub open spec fn fresh_child(e: Entry) -> bool {
    match e {
        Entry::File { .. } => true,
        Entry::Dir { span, last_entry_span, .. } => span == 1 && last_entry_span == 0,
    }
}

/// The directory an entry was just inserted into, with its counters brought
/// up to date: the span grows by the one inserted slot, and when the entry
/// was appended after all existing children it becomes the new last child,
/// of span 1.
pub open spec fn child_added(e: Entry, appending: bool) -> Entry {
    match e {
        Entry::Dir { name, symlink, ignored, span, last_entry_span } => Entry::Dir {
            name,
            symlink,
            ignored,
            span: (span + 1) as usize,
            last_entry_span: if appending {
                1 as usize
            } else {
                last_entry_span
            },
        },
        Entry::File { .. } => e,
    }
}

/// An ancestor of the directory an entry was inserted into, with its counters
/// brought up to date: the span grows by one, and `last_entry_span` grows too
/// exactly when the insertion landed inside the ancestor's last child.
pub open spec fn subtree_grown(e: Entry, grow_last: bool) -> Entry {
    match e {
        Entry::Dir { name, symlink, ignored, span, last_entry_span } => Entry::Dir {
            name,
            symlink,
            ignored,
            span: (span + 1) as usize,
            last_entry_span: if grow_last {
                (last_entry_span + 1) as usize
            } else {
                last_entry_span
            },
        },
        Entry::File { .. } => e,
    }
}

/// The ancestor at index `j` has exactly one child (its first child at
/// `j + 1` is also its last), so an insertion below the cursor lands inside
/// its last child and must grow its `last_entry_span`.
pub open spec fn grows(s: Seq<Entry>, j: int) -> bool {
    s[j].spec_span() == s[j + 1].spec_span() + 1
}

/// The whole array after a successful insertion of `e` at boundary `p`, the
/// cursor having stood on the directory at index `depth`: entries at and
/// after `p` shift one slot right to make room, the opened directory and
/// every ancestor above it (the cursor's path runs through the first-child
/// chain `0 ..= depth`) get their counters brought up to date, and everything
/// else is untouched.
pub open spec fn after_add(s: Seq<Entry>, depth: int, p: int, e: Entry) -> Seq<Entry> {
    Seq::new(
        (s.len() + 1) as nat,
        |k: int|
            if k == p {
                e
            } else {
                let k0: int = if k < p {
                    k
                } else {
                    k - 1
                };
                if k0 == depth {
                    child_added(s[k0], p == k0 + s[k0].spec_span())
                } else if 0 <= k0 < depth {
                    subtree_grown(s[k0], grows(s, k0))
                } else {
                    s[k0]
                }
            },
    )
}

} // verus!
