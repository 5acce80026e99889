//! Supporting proofs about the shape invariant.
//!
//! The predicates of `shape` only ever read the slots of the region they
//! describe, so a well-formed forest survives any edit outside that region,
//! and keeps its meaning when the whole region slides sideways. On top of
//! those frame facts, the lemmas here locate the last sibling of a forest,
//! relate name order to the insertion boundary, and show that inserting one
//! fresh entry at its boundary — or growing the first subtree of a forest by
//! one slot — yields a well-formed forest again.

use vstd::prelude::*;

use crate::entry::Entry;
use crate::shape::{
    after_add, child_added, fresh_child, gap_ok, grows, has_name, insert_pos, last_name,
    last_span, subtree_grown, tree_wf, wf_forest, wf_node,
};

verus! {

/// A well-formed forest depends only on its own slots: if `s2` holds, `off`
/// slots to the right, the same entries that `s1` holds in `[lo, hi)`, the
/// forest is well-formed there too, with the same last sibling and names.
pub proof fn lemma_forest_shift(s1: Seq<Entry>, s2: Seq<Entry>, lo: int, hi: int, off: int)
    requires
        wf_forest(s1, lo, hi),
        0 <= lo + off,
        hi + off <= s2.len(),
        forall|k: int| lo <= k < hi ==> s2[k + off] == s1[k],
    ensures
        wf_forest(s2, lo + off, hi + off),
        last_span(s2, lo + off, hi + off) == last_span(s1, lo, hi),
        last_name(s2, lo + off, hi + off) == last_name(s1, lo, hi),
        forall|nm: u64| has_name(s2, lo + off, hi + off, nm) == has_name(s1, lo, hi, nm),
    decreases hi - lo, 1int,
{
    if lo < hi {
        let sp: int = s1[lo].spec_span();
        assert(s2[lo + off] == s1[lo]);
        lemma_node_shift(s1, s2, lo, off);
        lemma_forest_shift(s1, s2, lo + sp, hi, off);
        if lo + sp < hi {
            assert(s2[lo + sp + off] == s1[lo + sp]);
        }
        assert forall|nm: u64| has_name(s2, lo + off, hi + off, nm) == has_name(
            s1,
            lo,
            hi,
            nm,
        ) by {
            assert(has_name(s2, lo + sp + off, hi + off, nm) == has_name(s1, lo + sp, hi, nm));
        }
    }
}

/// The subtree headed at `i` depends only on its own slots: it survives a
/// shift by `off` slots that keeps those entries.
pub proof fn lemma_node_shift(s1: Seq<Entry>, s2: Seq<Entry>, i: int, off: int)
    requires
        wf_node(s1, i),
        0 <= i + off,
        i + off + s1[i].spec_span() <= s2.len(),
        forall|k: int| i <= k < i + s1[i].spec_span() ==> s2[k + off] == s1[k],
    ensures
        wf_node(s2, i + off),
    decreases s1[i].spec_span(), 0int,
{
    assert(s2[i + off] == s1[i]);
    match s1[i] {
        Entry::File { .. } => {},
        Entry::Dir { span, .. } => {
            lemma_forest_shift(s1, s2, i + 1, i + span, off);
        },
    }
}


/// Bounds every well-formed subtree satisfies: it starts inside the array,
/// spans at least its own slot, and ends inside the array.
pub proof fn lemma_node_bounds(s: Seq<Entry>, i: int)
    requires
        wf_node(s, i),
    ensures
        0 <= i < s.len(),
        1 <= s[i].spec_span(),
        i + s[i].spec_span() <= s.len(),
{
    match s[i] {
        Entry::File { .. } => {},
        Entry::Dir { .. } => {},
    }
}

/// A non-empty well-formed forest ends in a last sibling: its subtree starts
/// at `hi - last_span`, spans exactly `last_span` slots, and bears the
/// forest's last name. The last sibling is the first one, or begins at or
/// after the second.
pub proof fn lemma_last(s: Seq<Entry>, lo: int, hi: int)
    requires
        wf_forest(s, lo, hi),
        lo < hi,
    ensures
        ({
            let ls: int = last_span(s, lo, hi);
            &&& 1 <= ls <= hi - lo
            &&& s[hi - ls].spec_span() == ls
            &&& s[hi - ls].spec_name() == last_name(s, lo, hi)
            &&& wf_node(s, hi - ls)
            &&& hi - ls == lo || hi - ls >= lo + s[lo].spec_span()
        }),
    decreases hi - lo,
{
    let sp: int = s[lo].spec_span();
    if lo + sp < hi {
        lemma_last(s, lo + sp, hi);
    }
}

/// In a non-empty well-formed forest the first name never exceeds the last.
pub proof fn lemma_first_le_last(s: Seq<Entry>, lo: int, hi: int)
    requires
        wf_forest(s, lo, hi),
        lo < hi,
    ensures
        s[lo].spec_name() <= last_name(s, lo, hi),
    decreases hi - lo,
{
    let sp: int = s[lo].spec_span();
    if lo + sp < hi {
        lemma_first_le_last(s, lo + sp, hi);
    }
}

/// A name above every sibling of the forest belongs at its very end.
pub proof fn lemma_append_gap(s: Seq<Entry>, lo: int, hi: int, nm: u64)
    requires
        wf_forest(s, lo, hi),
        lo == hi || nm > last_name(s, lo, hi),
    ensures
        gap_ok(s, lo, hi, hi, nm),
        insert_pos(s, lo, hi, nm) == hi,
    decreases hi - lo,
{
    if lo < hi {
        let sp: int = s[lo].spec_span();
        if lo + sp < hi {
            lemma_first_le_last(s, lo + sp, hi);
            lemma_append_gap(s, lo + sp, hi, nm);
            assert(last_name(s, lo, hi) == last_name(s, lo + sp, hi));
            assert(nm > s[lo].spec_name());
            assert(gap_ok(s, lo, hi, hi, nm));
            assert(insert_pos(s, lo, hi, nm) == insert_pos(s, lo + sp, hi, nm));
        } else {
            assert(last_name(s, lo, hi) == s[lo].spec_name());
            assert(gap_ok(s, lo + sp, hi, hi, nm));
            assert(gap_ok(s, lo, hi, hi, nm));
            assert(lo + sp == hi);
            assert(insert_pos(s, hi, hi, nm) == hi);
            assert(insert_pos(s, lo, hi, nm) == hi);
        }
    }
}

/// A name below the first sibling's name occurs nowhere in the forest.
pub proof fn lemma_all_above(s: Seq<Entry>, lo: int, hi: int, nm: u64)
    requires
        wf_forest(s, lo, hi),
        lo == hi || nm < s[lo].spec_name(),
    ensures
        !has_name(s, lo, hi, nm),
    decreases hi - lo,
{
    if lo < hi {
        let sp: int = s[lo].spec_span();
        if lo + sp < hi {
            lemma_all_above(s, lo + sp, hi, nm);
        }
    }
}

/// An insertion boundary for `nm` only exists when no sibling already bears
/// that name.
pub proof fn lemma_gap_no_name(s: Seq<Entry>, lo: int, hi: int, p: int, nm: u64)
    requires
        wf_forest(s, lo, hi),
        gap_ok(s, lo, hi, p, nm),
    ensures
        !has_name(s, lo, hi, nm),
    decreases hi - lo,
{
    if lo < hi {
        let sp: int = s[lo].spec_span();
        if p == lo {
            lemma_all_above(s, lo, hi, nm);
        } else {
            lemma_gap_no_name(s, lo + sp, hi, p, nm);
        }
    }
}


/// Every slot of a well-formed forest heads a well-formed subtree of its
/// own: the pre-order layout makes each entry the root of the block that
/// follows it.
pub proof fn lemma_forest_all_nodes(s: Seq<Entry>, lo: int, hi: int)
    requires
        wf_forest(s, lo, hi),
    ensures
        forall|k: int| lo <= k < hi ==> wf_node(s, k),
    decreases hi - lo, 1int,
{
    if lo < hi {
        let sp: int = s[lo].spec_span();
        lemma_node_all_nodes(s, lo);
        lemma_forest_all_nodes(s, lo + sp, hi);
    }
}

/// Every slot inside a well-formed subtree heads a well-formed subtree of
/// its own.
pub proof fn lemma_node_all_nodes(s: Seq<Entry>, i: int)
    requires
        wf_node(s, i),
    ensures
        forall|k: int| i <= k < i + s[i].spec_span() ==> wf_node(s, k),
    decreases s[i].spec_span(), 0int,
{
    match s[i] {
        Entry::File { .. } => {},
        Entry::Dir { span, .. } => {
            lemma_forest_all_nodes(s, i + 1, i + span);
        },
    }
}

/// Splicing one fresh entry into a well-formed forest at its insertion
/// boundary yields a well-formed forest one slot wider: `s2` holds the
/// entries of `[lo, p)` unchanged, then `e`, then the entries of `[p, hi)`
/// shifted one slot right. The last sibling is `e` itself when it was
/// appended, and is otherwise untouched.
pub proof fn lemma_forest_insert(s1: Seq<Entry>, s2: Seq<Entry>, lo: int, hi: int, p: int, e: Entry)
    requires
        wf_forest(s1, lo, hi),
        gap_ok(s1, lo, hi, p, e.spec_name()),
        fresh_child(e),
        0 <= lo,
        hi + 1 <= s2.len(),
        forall|k: int| lo <= k < p ==> s2[k] == s1[k],
        s2[p] == e,
        forall|k: int| p <= k < hi ==> s2[k + 1] == s1[k],
    ensures
        wf_forest(s2, lo, hi + 1),
        last_span(s2, lo, hi + 1) == if p == hi {
            1int
        } else {
            last_span(s1, lo, hi)
        },
        last_name(s2, lo, hi + 1) == if p == hi {
            e.spec_name()
        } else {
            last_name(s1, lo, hi)
        },
    decreases hi - lo,
{
    if lo >= hi {
        assert(p == lo);
        assert(s2[lo] == e);
        assert(wf_forest(s2, lo + 1, hi + 1));
        assert(wf_node(s2, lo));
    } else {
        let sp: int = s1[lo].spec_span();
        if p == lo {
            lemma_forest_shift(s1, s2, lo, hi, 1);
            assert(s2[lo] == e);
            assert(s2[lo + 1] == s1[lo]);
            assert(wf_node(s2, lo));
            assert(wf_forest(s2, lo, hi + 1));
        } else {
            lemma_gap_bounds(s1, lo + sp, hi, p, e.spec_name());
            lemma_node_shift(s1, s2, lo, 0);
            lemma_forest_insert(s1, s2, lo + sp, hi, p, e);
            if p == lo + sp {
                assert(s2[lo + sp] == e);
            } else {
                assert(s2[lo + sp] == s1[lo + sp]);
            }
            assert(wf_forest(s2, lo, hi + 1));
        }
    }
}

/// Growing the first subtree of a well-formed forest by one slot — its head
/// already brought to its new span and shown well-formed in `s2`, the rest of
/// the forest shifted one slot right — yields a well-formed forest one slot
/// wider. The forest's last span grows only when its first subtree is also
/// its last.
pub proof fn lemma_forest_first_grown(s1: Seq<Entry>, s2: Seq<Entry>, lo: int, hi: int)
    requires
        wf_forest(s1, lo, hi),
        lo < hi,
        s2[lo].spec_name() == s1[lo].spec_name(),
        s2[lo].spec_span() == s1[lo].spec_span() + 1,
        wf_node(s2, lo),
        hi + 1 <= s2.len(),
        forall|k: int| lo + s1[lo].spec_span() <= k < hi ==> s2[k + 1] == s1[k],
    ensures
        wf_forest(s2, lo, hi + 1),
        last_span(s2, lo, hi + 1) == if lo + s1[lo].spec_span() == hi {
            last_span(s1, lo, hi) + 1
        } else {
            last_span(s1, lo, hi)
        },
        last_name(s2, lo, hi + 1) == last_name(s1, lo, hi),
{
    let sp: int = s1[lo].spec_span();
    lemma_forest_shift(s1, s2, lo + sp, hi, 1);
    if lo + sp < hi {
        assert(s2[lo + sp + 1] == s1[lo + sp]);
    }
    assert(wf_forest(s2, lo, hi + 1));
}

/// An insertion boundary lies between the two ends of its forest.
pub proof fn lemma_gap_bounds(s: Seq<Entry>, lo: int, hi: int, p: int, nm: u64)
    requires
        lo <= hi,
        gap_ok(s, lo, hi, p, nm),
    ensures
        lo <= p <= hi,
    decreases hi - lo,
{
    if lo < hi && p != lo {
        let sp: int = s[lo].spec_span();
        lemma_gap_bounds(s, lo + sp, hi, p, nm);
    }
}

/// After the new entry is spliced in at its boundary `p` and the open
/// directory at `d0` has had its counters brought up to date, the open
/// directory's whole subtree is well-formed again: its children gained
/// exactly the new entry, which is the new last child exactly when it was
/// appended after all the others.
#[verifier::rlimit(50)]
pub proof fn lemma_splice_into_open_dir(
    s0: Seq<Entry>,
    v2: Seq<Entry>,
    d0: int,
    hi: int,
    p: int,
    e: Entry,
    appending: bool,
)
    requires
        wf_node(s0, d0),
        s0[d0] is Dir,
        hi == d0 + s0[d0].spec_span(),
        gap_ok(s0, d0 + 1, hi, p, e.spec_name()),
        d0 + 1 <= p,
        p <= hi,
        appending == (p == hi),
        fresh_child(e),
        s0.len() + 1 <= usize::MAX,
        v2.len() == s0.len() + 1,
        v2[d0] == child_added(s0[d0], appending),
        forall|k: int| 0 <= k < p && k != d0 ==> v2[k] == s0[k],
        v2[p] == e,
        forall|k: int| p <= k < s0.len() ==> v2[k + 1] == s0[k],
    ensures
        wf_node(v2, d0),
{
    assert(hi <= s0.len());
    lemma_forest_insert(s0, v2, d0 + 1, hi, p, e);
    assert(v2[d0].spec_span() == s0[d0].spec_span() + 1);
    assert(wf_forest(v2, d0 + 1, hi + 1));
    assert(v2[d0].spec_last_entry_span() == last_span(v2, d0 + 1, hi + 1));
    assert(wf_node(v2, d0));
}

/// One round of ancestor propagation: the directory at `j` — an ancestor on
/// the cursor's first-child chain, every entry strictly between it and the
/// open directory at `d0` already brought up to date in `vp` — has its own
/// counters brought up to date in `v`, and its whole subtree is then
/// well-formed. Its `last_entry_span` grows exactly when it holds a single
/// child, for only then is its first child — through whose subtree the
/// insertion ran — also its last.
#[verifier::rlimit(80)]
pub proof fn lemma_ancestor_step(
    s0: Seq<Entry>,
    vp: Seq<Entry>,
    v: Seq<Entry>,
    j: int,
    d0: int,
    p: int,
    hi: int,
    appending: bool,
    e: Entry,
    anc: Entry,
    grow: bool,
)
    requires
        0 <= j < d0,
        forall|k: int| 0 <= k < d0 ==> (#[trigger] s0[k]) is Dir,
        wf_node(s0, j),
        s0[d0] is Dir,
        hi == d0 + s0[d0].spec_span(),
        hi <= s0.len(),
        d0 + 1 <= p,
        p <= hi,
        appending == (p == hi),
        s0.len() + 1 <= usize::MAX,
        j + s0[j].spec_span() >= hi,
        j + 1 + s0[j + 1].spec_span() >= hi,
        vp.len() == s0.len() + 1,
        forall|k: int| 0 <= k <= j ==> vp[k] == s0[k],
        forall|k: int|
            j < k <= d0 ==> vp[k] == (if k == d0 {
                child_added(s0[k], appending)
            } else {
                subtree_grown(s0[k], grows(s0, k))
            }),
        forall|k: int| d0 < k < p ==> vp[k] == s0[k],
        vp[p] == e,
        forall|k: int| p <= k < s0.len() ==> vp[k + 1] == s0[k],
        forall|jj: int| j < jj <= d0 ==> wf_node(vp, jj),
        grow == (j + s0[j].spec_span() - s0[j].spec_last_entry_span() <= d0),
        anc == subtree_grown(s0[j], grow),
        v == vp.update(j, anc),
    ensures
        grow == grows(s0, j),
        v.len() == s0.len() + 1,
        forall|k: int| 0 <= k < j ==> v[k] == s0[k],
        forall|k: int|
            j <= k <= d0 ==> v[k] == (if k == d0 {
                child_added(s0[k], appending)
            } else {
                subtree_grown(s0[k], grows(s0, k))
            }),
        forall|k: int| d0 < k < p ==> v[k] == s0[k],
        v[p] == e,
        forall|k: int| p <= k < s0.len() ==> v[k + 1] == s0[k],
        forall|jj: int| j <= jj <= d0 ==> wf_node(v, jj),
{
    let asp: int = s0[j].spec_span();
    let ales: int = s0[j].spec_last_entry_span();
    let sp_child: int = s0[j + 1].spec_span();
    assert(wf_forest(s0, j + 1, j + asp));
    assert(ales == last_span(s0, j + 1, j + asp));
    lemma_last(s0, j + 1, j + asp);
    assert forall|jj: int| j < jj <= d0 implies wf_node(v, jj) by {
        assert(wf_node(vp, jj));
        lemma_node_bounds(vp, jj);
        lemma_node_shift(vp, v, jj, 0);
    }
    assert(v[j + 1] == vp[j + 1]);
    assert(v[j + 1].spec_name() == s0[j + 1].spec_name() && v[j + 1].spec_span() == sp_child
        + 1);
    assert forall|k: int| j + 1 + sp_child <= k < j + asp implies v[k + 1] == s0[k] by {
        assert(vp[k + 1] == s0[k]);
    }
    lemma_forest_first_grown(s0, v, j + 1, j + asp);
    let lc: int = j + asp - ales;
    if lc == j + 1 {
        // a single child: the forest's last sibling is its first
        assert(s0[lc].spec_span() == ales);
        assert(asp == ales + 1);
        assert(grow);
        assert(grows(s0, j));
        assert(j + 1 + sp_child == j + asp);
    } else {
        assert(lc >= j + 1 + sp_child);
        assert(!grow);
        assert(sp_child + 1 < asp);
        assert(!grows(s0, j));
        assert(j + 1 + sp_child < j + asp);
    }
    assert(v[j] == anc);
    assert(wf_node(v, j));
}

/// With every ancestor brought up to date, the final array is exactly the
/// old one with the fresh entry spliced in and the counters of the cursor's
/// whole path grown, and it is a well-formed tree again.
#[verifier::rlimit(50)]
pub proof fn lemma_after_add_assembled(
    s0: Seq<Entry>,
    f: Seq<Entry>,
    d0: int,
    hi: int,
    p: int,
    e: Entry,
    appending: bool,
)
    requires
        tree_wf(s0),
        0 <= d0,
        forall|k: int| 0 <= k < d0 ==> (#[trigger] s0[k]) is Dir,
        forall|k: int| 0 <= k <= d0 ==> wf_node(s0, k),
        s0[d0] is Dir,
        hi == d0 + s0[d0].spec_span(),
        hi <= s0.len(),
        d0 + 1 <= p,
        p <= hi,
        appending == (p == hi),
        s0.len() + 1 <= usize::MAX,
        f.len() == s0.len() + 1,
        forall|k: int|
            0 <= k <= d0 ==> f[k] == (if k == d0 {
                child_added(s0[k], appending)
            } else {
                subtree_grown(s0[k], grows(s0, k))
            }),
        forall|k: int| d0 < k < p ==> f[k] == s0[k],
        f[p] == e,
        forall|k: int| p <= k < s0.len() ==> f[k + 1] == s0[k],
        wf_node(f, 0),
    ensures
        f == after_add(s0, d0, p, e),
        tree_wf(f),
        forall|k: int| 0 <= k <= d0 ==> (#[trigger] f[k]) is Dir,
        forall|k: int| 0 <= k <= d0 ==> (#[trigger] f[k].spec_span()) == s0[k].spec_span() + 1,
{
    let target = after_add(s0, d0, p, e);
    assert(f.len() == target.len());
    assert forall|k: int| 0 <= k < f.len() implies f[k] == target[k] by {}
    assert(f =~= target);
    assert forall|k: int| 0 <= k <= d0 implies (#[trigger] f[k]) is Dir && (f[k].spec_span())
        == s0[k].spec_span() + 1 by {
        lemma_node_bounds(s0, k);
    }
    assert(f[0].spec_span() == s0[0].spec_span() + 1);
}

} // verus!
