//! The tree and its cursor.
//!
//! A `Tree` owns the pre-order array of entries. A `CursorMut` takes the tree
//! over for the duration of an editing session — ownership is what makes the
//! mutator exclusive — and holds the stack of ancestor indices from the root
//! down to the directory currently open. Navigation moves the stack;
//! `add_entry` splices a new child into the array in sorted position and
//! brings the span counters of the open directory and of every ancestor up
//! to date.

use vstd::prelude::*;

use crate::entry::Entry;
use crate::lemmas::{
    lemma_after_add_assembled, lemma_ancestor_step, lemma_append_gap, lemma_gap_bounds,
    lemma_gap_no_name, lemma_last, lemma_splice_into_open_dir,
};
use crate::shape::{
    after_add, child_added, fresh_child, gap_ok, grows, has_name, insert_pos, last_name,
    last_span, subtree_grown, tree_wf, wf_forest, wf_node,
};

verus! {

/// Why an operation could not be carried out. Every failure is local and
/// recoverable, and leaves the tree exactly as it was.
#[derive(Clone, Copy, PartialEq, Eq, Structural, Debug)]
pub enum TreeError {
    /// The entry the cursor stands on is a file, which can hold no children.
    NotADirectory,
    /// The directory the cursor stands on has no children to descend into.
    EmptyDirectory,
    /// The cursor already stands on the root, which has no parent.
    AtRoot,
    /// A direct sibling already bears the name of the entry to insert.
    DuplicateName,
}

/// An owned, ordered sequence of entries: the full pre-order flattening of a
/// rooted directory tree.
pub struct Tree {
    /// The pre-order array itself. It is exposed so that specifications can
    /// speak of it directly; a cursor's operations keep it well-formed.
    pub entries: Vec<Entry>,
}

impl View for Tree {
    type V = Seq<Entry>;

    open spec fn view(&self) -> Seq<Entry> {
        self.entries@
    }
}

impl Tree {
    /// A tree holding exactly one root directory with no children yet.
    pub fn new(name: u64, symlink: bool, ignored: bool) -> (t: Tree)
        ensures
            t@ == seq![
                Entry::Dir { name, symlink, ignored, span: 1, last_entry_span: 0 },
            ],
            tree_wf(t@),
    {
        let root = Entry::Dir { name, symlink, ignored, span: 1, last_entry_span: 0 };
        let mut entries: Vec<Entry> = Vec::new();
        entries.push(root);
        let t = Tree { entries };
        proof {
            assert(t@ =~= seq![root]);
            assert(wf_forest(t@, 1, 1));
            assert(wf_node(t@, 0));
        }
        t
    }

    /// How many slots the tree occupies.
    pub fn len(&self) -> (n: usize)
        ensures
            n == self@.len(),
    {
        self.entries.len()
    }

    /// The entry at slot `i`.
    pub fn get(&self, i: usize) -> (e: Entry)
        requires
            i < self@.len(),
        ensures
            e == self@[i as int],
    {
        self.entries[i]
    }
}

/// Scan the sibling subtrees of the forest `[lo, hi)` left to right for the
/// boundary where a child named `nm` belongs, skipping each sibling's whole
/// subtree in one jump; stop early with `DuplicateName` when a sibling
/// already bears the name. The caller has compared `nm` against the last
/// sibling, so the scan never runs off the forest's end.
fn scan(entries: &Vec<Entry>, lo: usize, Ghost(hi): Ghost<int>, nm: u64) -> (r: Result<
    usize,
    TreeError,
>)
    requires
        wf_forest(entries@, lo as int, hi),
        (lo as int) < hi,
        hi <= entries@.len(),
        nm <= last_name(entries@, lo as int, hi),
    ensures
        match r {
            Ok(p) => {
                &&& lo as int <= p as int
                &&& (p as int) < hi
                &&& gap_ok(entries@, lo as int, hi, p as int, nm)
                &&& insert_pos(entries@, lo as int, hi, nm) == p as int
            },
            Err(e) => e == TreeError::DuplicateName && has_name(entries@, lo as int, hi, nm),
        },
{
    let n: usize = entries.len();
    let mut sib: usize = lo;
    loop
        invariant
            n == entries@.len(),
            lo <= sib,
            (sib as int) < hi,
            hi <= entries@.len(),
            wf_forest(entries@, sib as int, hi),
            nm <= last_name(entries@, sib as int, hi),
            insert_pos(entries@, lo as int, hi, nm) == insert_pos(entries@, sib as int, hi, nm),
            has_name(entries@, lo as int, hi, nm) == has_name(entries@, sib as int, hi, nm),
            forall|q: int|
                gap_ok(entries@, sib as int, hi, q, nm) ==> gap_ok(entries@, lo as int, hi, q, nm),
        decreases hi - sib as int,
    {
        let sibe: Entry = entries[sib];
        let sib_nm: u64 = sibe.name();
        if nm < sib_nm {
            proof {
                assert(gap_ok(entries@, sib as int, hi, sib as int, nm));
                assert(insert_pos(entries@, sib as int, hi, nm) == sib as int);
            }
            return Ok(sib);
        } else if nm == sib_nm {
            proof {
                assert(has_name(entries@, sib as int, hi, nm));
            }
            return Err(TreeError::DuplicateName);
        }
        let ghost s = entries@;
        let ghost sp = s[sib as int].spec_span();
        proof {
            // the sibling is not the last one: its name is below `nm`, which
            // itself is at most the last name
            if sib as int + sp >= hi {
                assert(last_name(s, sib as int, hi) == sib_nm);
                assert(false);
            }
            assert(last_name(s, sib as int + sp, hi) == last_name(s, sib as int, hi));
            assert forall|q: int|
                gap_ok(s, sib as int + sp, hi, q, nm) implies gap_ok(
                s,
                sib as int,
                hi,
                q,
                nm,
            ) by {
                lemma_gap_bounds(s, sib as int + sp, hi, q, nm);
            }
        }
        sib = sib + sibe.span();
    }
}

/// An exclusive mutator and navigator over one tree. The stack holds the
/// array indices of the path from the root to the directory currently open;
/// its top is the current position. Since descending always enters the first
/// child, which lies one slot after its parent, the path indices are exactly
/// `0, 1, .., depth`.
pub struct CursorMut {
    /// The tree being edited; owning it is what makes the mutator exclusive.
    pub tree: Tree,
    /// The array indices of the path from the root to the open directory.
    pub stack: Vec<usize>,
}

impl CursorMut {
    /// The cursor's well-formedness: the tree satisfies its shape invariant,
    /// the stack walks the first-child chain from the root, every entry on it
    /// heads a well-formed subtree, and each ancestor on it is a directory
    /// whose subtree encloses its child's subtree.
    pub open spec fn wf(self) -> bool {
        let s = self.tree@;
        let depth: int = self.stack@.len() - 1;
        &&& tree_wf(s)
        &&& self.stack@.len() >= 1
        &&& forall|j: int| 0 <= j <= depth ==> self.stack@[j] as int == j
        &&& forall|j: int| 0 <= j <= depth ==> wf_node(s, j)
        &&& forall|j: int| 0 <= j < depth ==> (#[trigger] s[j]) is Dir
        &&& forall|j: int|
            0 <= j < depth ==> j + (#[trigger] s[j].spec_span()) >= j + 1 + s[j + 1].spec_span()
    }

    /// The array index of the directory (or file) the cursor stands on.
    pub open spec fn spec_pos(self) -> int {
        self.stack@.last() as int
    }

    /// Open a cursor over `tree`, standing on the root.
    pub fn new(tree: Tree) -> (c: CursorMut)
        requires
            tree_wf(tree@),
        ensures
            c.wf(),
            c.tree@ == tree@,
            c.stack@ == seq![0usize],
    {
        let mut stack: Vec<usize> = Vec::new();
        stack.push(0);
        let c = CursorMut { tree, stack };
        proof {
            assert(c.stack@ =~= seq![0usize]);
        }
        c
    }

    /// Give the tree back, ending the editing session.
    pub fn into_tree(self) -> (t: Tree)
        ensures
            t@ == self.tree@,
    {
        self.tree
    }

    /// The tree as it stands mid-session.
    pub fn tree(&self) -> (t: &Tree)
        ensures
            t@ == self.tree@,
    {
        &self.tree
    }

    /// How deep the cursor stands: 1 on the root, one more per descent.
    pub fn depth(&self) -> (n: usize)
        ensures
            n == self.stack@.len(),
    {
        self.stack.len()
    }

    /// Move the cursor into the first child of the directory it stands on.
    /// Fails with `NotADirectory` on a file and with `EmptyDirectory` on a
    /// directory with no children; the tree is untouched either way.
    pub fn descend(&mut self) -> (r: Result<(), TreeError>)
        requires
            old(self).wf(),
        ensures
            final(self).wf(),
            final(self).tree@ == old(self).tree@,
            ({
                let s = old(self).tree@;
                let d: int = old(self).spec_pos();
                match s[d] {
                    Entry::File { .. } => r == Err::<(), TreeError>(TreeError::NotADirectory)
                        && final(self).stack@ == old(self).stack@,
                    Entry::Dir { span, .. } => if span == 1 {
                        &&& r == Err::<(), TreeError>(TreeError::EmptyDirectory)
                        &&& final(self).stack@ == old(self).stack@
                    } else {
                        &&& r == Ok::<(), TreeError>(())
                        &&& final(self).stack@ == old(self).stack@.push((d + 1) as usize)
                    },
                }
            }),
    {
        let d: usize = self.stack[self.stack.len() - 1];
        proof {
            assert(wf_node(self.tree@, d as int));
        }
        match self.tree.entries[d] {
            Entry::File { .. } => Err(TreeError::NotADirectory),
            Entry::Dir { span, .. } => {
                if span == 1 {
                    Err(TreeError::EmptyDirectory)
                } else {
                    proof {
                        let s = self.tree@;
                        assert(wf_forest(s, d + 1, d + s[d as int].spec_span()));
                        assert(wf_node(s, d + 1));
                    }
                    self.stack.push(d + 1);
                    Ok(())
                }
            },
        }
    }

    /// Insert `entry` as a child of the directory the cursor stands on,
    /// keeping the children sorted and every span counter on the cursor's
    /// path up to date. A directory is inserted empty, whatever counters the
    /// caller's value carried. Fails with `NotADirectory` when the cursor
    /// stands on a file and with `DuplicateName` when a direct sibling
    /// already bears the entry's name; the tree is untouched either way.
    #[verifier::rlimit(100)]
    pub fn add_entry(&mut self, entry: Entry) -> (r: Result<(), TreeError>)
        requires
            old(self).wf(),
        ensures
            final(self).wf(),
            final(self).stack@ == old(self).stack@,
            ({
                let s = old(self).tree@;
                let d: int = old(self).spec_pos();
                let nm = entry.spec_name();
                match s[d] {
                    Entry::File { .. } => {
                        &&& r == Err::<(), TreeError>(TreeError::NotADirectory)
                        &&& final(self).tree@ == s
                    },
                    Entry::Dir { span, .. } => {
                        let hi: int = d + span;
                        if has_name(s, d + 1, hi, nm) {
                            &&& r == Err::<(), TreeError>(TreeError::DuplicateName)
                            &&& final(self).tree@ == s
                        } else {
                            let p: int = insert_pos(s, d + 1, hi, nm);
                            &&& r == Ok::<(), TreeError>(())
                            &&& final(self).tree@ == after_add(s, d, p, entry.norm())
                            &&& gap_ok(s, d + 1, hi, p, nm)
                        }
                    },
                }
            }),
    {
        let ghost s0 = self.tree@;
        let ghost stack0 = self.stack@;
        // reading the length as a usize pins the whole array, and with it
        // every span, to the machine's index range
        let _len_fits: usize = self.tree.entries.len();
        let d: usize = self.stack[self.stack.len() - 1];
        let ghost d0 = d as int;
        proof {
            assert(wf_node(s0, d0));
        }
        let (dname, dsym, dign, span, les) = match self.tree.entries[d] {
            Entry::File { .. } => {
                return Err(TreeError::NotADirectory);
            },
            Entry::Dir { name, symlink, ignored, span, last_entry_span } => (
                name,
                symlink,
                ignored,
                span,
                last_entry_span,
            ),
        };
        let ghost hi = d0 + span as int;
        let nm: u64 = entry.name();
        let ghost nm_g = entry.spec_name();
        proof {
            assert(wf_forest(s0, d0 + 1, hi));
            assert(les as int == last_span(s0, d0 + 1, hi));
        }
        let insertion_index: usize;
        let appending: bool;
        if span == 1 {
            insertion_index = d + 1;
            appending = true;
        } else {
            proof {
                lemma_last(s0, d0 + 1, hi);
            }
            let lc: usize = d + span - les;
            let last_nm: u64 = self.tree.entries[lc].name();
            proof {
                assert(last_nm == last_name(s0, d0 + 1, hi));
            }
            if nm > last_nm {
                insertion_index = d + span;
                appending = true;
                proof {
                    lemma_append_gap(s0, d0 + 1, hi, nm_g);
                }
            } else {
                match scan(&self.tree.entries, d + 1, Ghost(hi), nm) {
                    Ok(p_found) => {
                        insertion_index = p_found;
                        appending = false;
                    },
                    Err(_) => {
                        return Err(TreeError::DuplicateName);
                    },
                }
            }
        }
        let ghost p = insertion_index as int;
        proof {
            assert(gap_ok(s0, d0 + 1, hi, p, nm_g));
            assert(insert_pos(s0, d0 + 1, hi, nm_g) == p);
            lemma_gap_no_name(s0, d0 + 1, hi, p, nm_g);
            lemma_gap_bounds(s0, d0 + 1, hi, p, nm_g);
            assert(appending == (p == hi));
        }
        let new_entry: Entry = match entry {
            Entry::File { .. } => entry,
            Entry::Dir { name, symlink, ignored, .. } => Entry::Dir {
                name,
                symlink,
                ignored,
                span: 1,
                last_entry_span: 0,
            },
        };
        proof {
            assert(new_entry == entry.norm());
            assert(fresh_child(new_entry));
            s0.insert_ensures(p, new_entry);
        }
        self.tree.entries.insert(insertion_index, new_entry);
        // the grown array's length is again a usize, so each counter below
        // can grow by one without overflowing
        let _grown_len_fits: usize = self.tree.entries.len();
        let updated: Entry = Entry::Dir {
            name: dname,
            symlink: dsym,
            ignored: dign,
            span: span + 1,
            last_entry_span: if appending {
                1
            } else {
                les
            },
        };
        proof {
            assert(updated == child_added(s0[d0], appending));
        }
        self.tree.entries[d] = updated;
        proof {
            lemma_splice_into_open_dir(s0, self.tree@, d0, hi, p, new_entry, appending);
        }
        let mut j: usize = d;
        while j > 0
            invariant
                old(self).wf(),
                s0 == old(self).tree@,
                stack0 == old(self).stack@,
                self.stack@ == stack0,
                d0 == d as int,
                d0 == stack0.len() - 1,
                j <= d,
                s0[d0] is Dir,
                hi == d0 + s0[d0].spec_span(),
                d0 + 1 <= p <= hi <= s0.len(),
                appending == (p == hi),
                new_entry == entry.norm(),
                new_entry.spec_name() == entry.spec_name(),
                j as int + s0[j as int].spec_span() >= hi,
                s0.len() + 1 <= usize::MAX,
                self.tree@.len() == s0.len() + 1,
                forall|k: int| 0 <= k < j as int ==> self.tree@[k] == s0[k],
                forall|k: int|
                    j as int <= k <= d0 ==> self.tree@[k] == (if k == d0 {
                        child_added(s0[k], appending)
                    } else {
                        subtree_grown(s0[k], grows(s0, k))
                    }),
                forall|k: int| d0 < k < p ==> self.tree@[k] == s0[k],
                self.tree@[p] == new_entry,
                forall|k: int| p <= k < s0.len() ==> self.tree@[k + 1] == s0[k],
                forall|jj: int| j as int <= jj <= d0 ==> wf_node(self.tree@, jj),
            decreases j,
        {
            j = j - 1;
            proof {
                assert(s0[j as int] is Dir);
                assert(wf_node(s0, j as int));
                assert(j as int + s0[j as int].spec_span() >= j as int + 1 + s0[j as int
                    + 1].spec_span());
                assert(j as int + s0[j as int].spec_span() >= hi);
            }
            let ae: Entry = self.tree.entries[j];
            let (aname, asym, aign, asp, ales) = match ae {
                Entry::File { .. } => {
                    // the cursor's path below its top runs through
                    // directories only
                    proof {
                        assert(false);
                    }
                    (0u64, false, false, 0usize, 0usize)
                },
                Entry::Dir { name, symlink, ignored, span, last_entry_span } => (
                    name,
                    symlink,
                    ignored,
                    span,
                    last_entry_span,
                ),
            };
            proof {
                assert(j as int + asp as int <= s0.len());
                assert(wf_forest(s0, j as int + 1, j as int + asp as int));
                assert(ales as int == last_span(s0, j as int + 1, j as int + asp as int));
                lemma_last(s0, j as int + 1, j as int + asp as int);
            }
            let lc: usize = j + asp - ales;
            let grow: bool = lc <= d;
            let updated_anc: Entry = Entry::Dir {
                name: aname,
                symlink: asym,
                ignored: aign,
                span: asp + 1,
                last_entry_span: if grow {
                    ales + 1
                } else {
                    ales
                },
            };
            let ghost vp = self.tree@;
            self.tree.entries[j] = updated_anc;
            proof {
                lemma_ancestor_step(
                    s0,
                    vp,
                    self.tree@,
                    j as int,
                    d0,
                    p,
                    hi,
                    appending,
                    new_entry,
                    updated_anc,
                    grow,
                );
            }
        }
        proof {
            lemma_after_add_assembled(s0, self.tree@, d0, hi, p, new_entry, appending);
            let f = self.tree@;
            assert forall|jj: int| 0 <= jj < d0 implies jj + (#[trigger] f[jj].spec_span())
                >= jj + 1 + f[jj + 1].spec_span() by {
                assert(jj + s0[jj].spec_span() >= jj + 1 + s0[jj + 1].spec_span());
            }
            assert(final(self).wf());
        }
        Ok(())
    }

    /// Move the cursor back to the parent of the directory it stands on.
    /// Fails with `AtRoot` when the cursor already stands on the root; the
    /// tree is untouched either way.
    pub fn ascend(&mut self) -> (r: Result<(), TreeError>)
        requires
            old(self).wf(),
        ensures
            final(self).wf(),
            final(self).tree@ == old(self).tree@,
            old(self).stack@.len() == 1 ==> r == Err::<(), TreeError>(TreeError::AtRoot)
                && final(self).stack@ == old(self).stack@,
            old(self).stack@.len() > 1 ==> r == Ok::<(), TreeError>(()) && final(self).stack@
                == old(self).stack@.drop_last(),
    {
        if self.stack.len() == 1 {
            Err(TreeError::AtRoot)
        } else {
            let _popped = self.stack.pop();
            proof {
                assert(self.stack@ =~= old(self).stack@.drop_last());
            }
            Ok(())
        }
    }
}

} // verus!
