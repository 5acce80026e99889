//! The structural guarantees of a well-formed tree, stated on their own.
//!
//! Every cursor operation keeps the tree well-formed (its contract says so),
//! and the lemmas here spell out what well-formedness buys: children sorted
//! strictly ascending by name, each directory's span accounting exactly for
//! its own slot plus its children's subtrees, and `last_entry_span` locating
//! the last child.

use vstd::prelude::*;

use crate::entry::Entry;
use crate::lemmas::{lemma_last, lemma_node_all_nodes, lemma_node_bounds};
use crate::shape::{children_names, sum_spans, tree_wf, wf_forest, wf_node};

verus! {

/// The sibling subtrees of a well-formed forest fill it exactly: their spans
/// sum to its width.
pub proof fn lemma_forest_filled(s: Seq<Entry>, lo: int, hi: int)
    requires
        wf_forest(s, lo, hi),
    ensures
        sum_spans(s, lo, hi) == hi - lo,
    decreases hi - lo,
{
    if lo < hi {
        let sp: int = s[lo].spec_span();
        lemma_forest_filled(s, lo + sp, hi);
    }
}

/// Span correctness: a well-formed directory's span is 1 — its own slot —
/// plus the sum of the spans of its immediate children, so spans are
/// recursively consistent with subtree sizes.
pub proof fn lemma_span_correct(s: Seq<Entry>, i: int)
    requires
        wf_node(s, i),
        s[i] is Dir,
    ensures
        s[i].spec_span() == 1 + sum_spans(s, i + 1, i + s[i].spec_span()),
{
    lemma_node_bounds(s, i);
    lemma_forest_filled(s, i + 1, i + s[i].spec_span());
}

/// Last-child correctness: a well-formed directory with no children stores
/// `last_entry_span` 0; one with children stores the span of the entry found
/// at `i + span - last_entry_span`, the head of its last child's subtree.
pub proof fn lemma_last_child_correct(s: Seq<Entry>, i: int)
    requires
        wf_node(s, i),
        s[i] is Dir,
    ensures
        s[i].spec_span() == 1 ==> s[i].spec_last_entry_span() == 0,
        s[i].spec_span() > 1 ==> {
            let les: int = s[i].spec_last_entry_span();
            &&& 1 <= les <= s[i].spec_span() - 1
            &&& s[i + s[i].spec_span() - les].spec_span() == les
        },
{
    lemma_node_bounds(s, i);
    if s[i].spec_span() > 1 {
        lemma_last(s, i + 1, i + s[i].spec_span());
    }
}

/// Sort invariant: the names of a well-formed forest's siblings are strictly
/// ascending in layout order — so, in particular, no two siblings share a
/// name.
pub proof fn lemma_children_sorted(s: Seq<Entry>, lo: int, hi: int)
    requires
        wf_forest(s, lo, hi),
    ensures
        forall|a: int, b: int|
            0 <= a < b < children_names(s, lo, hi).len() ==> children_names(s, lo, hi)[a]
                < children_names(s, lo, hi)[b],
    decreases hi - lo,
{
    if lo < hi {
        let sp: int = s[lo].spec_span();
        lemma_children_sorted(s, lo + sp, hi);
        let cn = children_names(s, lo, hi);
        let tail = children_names(s, lo + sp, hi);
        assert(cn == seq![s[lo].spec_name()] + tail);
        if lo + sp < hi {
            assert(tail[0] == s[lo + sp].spec_name());
        }
        assert forall|a: int, b: int| 0 <= a < b < cn.len() implies cn[a] < cn[b] by {
            assert(cn[b] == tail[b - 1]);
            if a == 0 {
                if b > 1 {
                    assert(tail[0] < tail[b - 1]);
                }
            } else {
                assert(cn[a] == tail[a - 1]);
            }
        }
    }
}

/// Every slot of a well-formed tree heads a well-formed subtree, so the span
/// and last-child laws above hold at every directory index of the array.
pub proof fn lemma_tree_all_nodes(s: Seq<Entry>)
    requires
        tree_wf(s),
    ensures
        forall|k: int| 0 <= k < s.len() ==> wf_node(s, k),
{
    lemma_node_all_nodes(s, 0);
}

/// The immediate children of a well-formed directory are strictly ascending
/// by name.
pub proof fn lemma_dir_children_sorted(s: Seq<Entry>, i: int)
    requires
        wf_node(s, i),
        s[i] is Dir,
    ensures
        ({
            let cn = children_names(s, i + 1, i + s[i].spec_span());
            forall|a: int, b: int| 0 <= a < b < cn.len() ==> cn[a] < cn[b]
        }),
{
    lemma_node_bounds(s, i);
    lemma_children_sorted(s, i + 1, i + s[i].spec_span());
}

} // verus!
