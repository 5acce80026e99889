//! Behaviour of the cursor over concrete trees. Names are opaque ordered
//! identifiers, so the tests use small numbers; a name's number stands for
//! its place in the caller's sort order.

use flat_tree::entry::Entry;
use flat_tree::tree::{CursorMut, Tree, TreeError};

fn file(name: u64) -> Entry {
    Entry::File { name, symlink: false, ignored: false }
}

fn dir(name: u64) -> Entry {
    Entry::Dir { name, symlink: false, ignored: false, span: 0, last_entry_span: 0 }
}

fn stored_dir(name: u64, span: usize, last_entry_span: usize) -> Entry {
    Entry::Dir { name, symlink: false, ignored: false, span, last_entry_span }
}

#[test]
fn add_first_file_to_root() {
    let t = Tree::new(0, false, false);
    let mut c = CursorMut::new(t);
    assert_eq!(c.add_entry(file(2)), Ok(()));
    let t = c.into_tree();
    assert_eq!(t.len(), 2);
    // the root's span now covers its own slot plus the new child's
    assert_eq!(t.get(0), stored_dir(0, 2, 1));
    assert_eq!(t.get(1), file(2));
}

#[test]
fn insert_before_existing_sibling() {
    let t = Tree::new(0, false, false);
    let mut c = CursorMut::new(t);
    assert_eq!(c.add_entry(file(2)), Ok(()));
    // name 1 sorts before name 2, so it lands ahead of it in the array
    assert_eq!(c.add_entry(file(1)), Ok(()));
    let t = c.into_tree();
    assert_eq!(t.len(), 3);
    assert_eq!(t.get(0), stored_dir(0, 3, 1));
    assert_eq!(t.get(1), file(1));
    assert_eq!(t.get(2), file(2));
}

#[test]
fn insert_into_subdirectory_grows_every_ancestor() {
    let t = Tree::new(0, false, false);
    let mut c = CursorMut::new(t);
    assert_eq!(c.add_entry(dir(5)), Ok(()));
    assert_eq!(c.descend(), Ok(()));
    assert_eq!(c.add_entry(file(7)), Ok(()));
    let t = c.into_tree();
    assert_eq!(t.len(), 3);
    // the insertion landed inside the root's last (only) child, so the
    // root's last_entry_span follows that child's grown span
    assert_eq!(t.get(0), stored_dir(0, 3, 2));
    assert_eq!(t.get(1), stored_dir(5, 2, 1));
    assert_eq!(t.get(2), file(7));
}

#[test]
fn duplicate_name_rejected_and_tree_unchanged() {
    let t = Tree::new(0, false, false);
    let mut c = CursorMut::new(t);
    assert_eq!(c.add_entry(file(4)), Ok(()));
    assert_eq!(c.add_entry(file(4)), Err(TreeError::DuplicateName));
    let t = c.into_tree();
    assert_eq!(t.len(), 2);
    assert_eq!(t.get(0), stored_dir(0, 2, 1));
    assert_eq!(t.get(1), file(4));
}

#[test]
fn duplicate_of_last_child_found_by_scan() {
    let t = Tree::new(0, false, false);
    let mut c = CursorMut::new(t);
    assert_eq!(c.add_entry(file(10)), Ok(()));
    assert_eq!(c.add_entry(file(20)), Ok(()));
    assert_eq!(c.add_entry(file(20)), Err(TreeError::DuplicateName));
    assert_eq!(c.tree().len(), 3);
}

#[test]
fn duplicate_between_dir_and_file() {
    let t = Tree::new(0, false, false);
    let mut c = CursorMut::new(t);
    assert_eq!(c.add_entry(dir(10)), Ok(()));
    assert_eq!(c.add_entry(file(10)), Err(TreeError::DuplicateName));
    assert_eq!(c.tree().len(), 2);
}

#[test]
fn ascend_from_root_fails() {
    let t = Tree::new(0, false, false);
    let mut c = CursorMut::new(t);
    assert_eq!(c.ascend(), Err(TreeError::AtRoot));
    assert_eq!(c.depth(), 1);
    let t = c.into_tree();
    assert_eq!(t.len(), 1);
    assert_eq!(t.get(0), stored_dir(0, 1, 0));
}

#[test]
fn descend_into_empty_directory_fails() {
    let t = Tree::new(0, false, false);
    let mut c = CursorMut::new(t);
    assert_eq!(c.descend(), Err(TreeError::EmptyDirectory));
    assert_eq!(c.depth(), 1);
    assert_eq!(c.tree().len(), 1);
}

#[test]
fn file_refuses_children_and_descent() {
    let t = Tree::new(0, false, false);
    let mut c = CursorMut::new(t);
    assert_eq!(c.add_entry(file(3)), Ok(()));
    // the first child is the file itself; standing on it, both operations fail
    assert_eq!(c.descend(), Ok(()));
    assert_eq!(c.descend(), Err(TreeError::NotADirectory));
    assert_eq!(c.add_entry(file(4)), Err(TreeError::NotADirectory));
    assert_eq!(c.tree().len(), 2);
    assert_eq!(c.ascend(), Ok(()));
    assert_eq!(c.depth(), 1);
}

#[test]
fn middle_insertion_scans_and_lands_in_order() {
    let t = Tree::new(0, false, false);
    let mut c = CursorMut::new(t);
    assert_eq!(c.add_entry(file(30)), Ok(()));
    assert_eq!(c.add_entry(file(10)), Ok(()));
    assert_eq!(c.add_entry(file(20)), Ok(()));
    let t = c.into_tree();
    assert_eq!(t.len(), 4);
    assert_eq!(t.get(0), stored_dir(0, 4, 1));
    assert_eq!(t.get(1), file(10));
    assert_eq!(t.get(2), file(20));
    assert_eq!(t.get(3), file(30));
}

#[test]
fn insertion_outside_last_child_leaves_its_counter() {
    let t = Tree::new(0, false, false);
    let mut c = CursorMut::new(t);
    assert_eq!(c.add_entry(dir(3)), Ok(()));
    assert_eq!(c.add_entry(file(9)), Ok(()));
    // descend into the first child (the subdirectory); the root's last child
    // is the file 9, untouched by the insertion below
    assert_eq!(c.descend(), Ok(()));
    assert_eq!(c.add_entry(file(5)), Ok(()));
    let t = c.into_tree();
    assert_eq!(t.len(), 4);
    assert_eq!(t.get(0), stored_dir(0, 4, 1));
    assert_eq!(t.get(1), stored_dir(3, 2, 1));
    assert_eq!(t.get(2), file(5));
    assert_eq!(t.get(3), file(9));
}

#[test]
fn deep_chain_propagates_to_every_ancestor() {
    let t = Tree::new(0, false, false);
    let mut c = CursorMut::new(t);
    assert_eq!(c.add_entry(dir(1)), Ok(()));
    assert_eq!(c.descend(), Ok(()));
    assert_eq!(c.add_entry(dir(2)), Ok(()));
    assert_eq!(c.descend(), Ok(()));
    assert_eq!(c.add_entry(file(3)), Ok(()));
    assert_eq!(c.depth(), 3);
    let t = c.into_tree();
    assert_eq!(t.len(), 4);
    assert_eq!(t.get(0), stored_dir(0, 4, 3));
    assert_eq!(t.get(1), stored_dir(1, 3, 2));
    assert_eq!(t.get(2), stored_dir(2, 2, 1));
    assert_eq!(t.get(3), file(3));
}

#[test]
fn inserted_directory_starts_empty() {
    let t = Tree::new(0, false, false);
    let mut c = CursorMut::new(t);
    // whatever counters the caller's value carries, the stored directory
    // starts empty: span 1 (its own slot), no last child
    let junk = Entry::Dir { name: 6, symlink: false, ignored: false, span: 99, last_entry_span: 7 };
    assert_eq!(c.add_entry(junk), Ok(()));
    assert_eq!(c.tree().get(1), stored_dir(6, 1, 0));
    assert_eq!(c.descend(), Ok(()));
    assert_eq!(c.descend(), Err(TreeError::EmptyDirectory));
}

#[test]
fn flags_are_kept_as_given() {
    let t = Tree::new(0, true, false);
    let mut c = CursorMut::new(t);
    let marked = Entry::File { name: 8, symlink: true, ignored: true };
    assert_eq!(c.add_entry(marked), Ok(()));
    let t = c.into_tree();
    assert_eq!(t.get(0), Entry::Dir { name: 0, symlink: true, ignored: false, span: 2, last_entry_span: 1 });
    assert_eq!(t.get(1), marked);
}

#[test]
fn entry_accessors_report_name_and_span() {
    let f = Entry::File { name: 11, symlink: false, ignored: false };
    assert_eq!(f.name(), 11);
    assert_eq!(f.span(), 1);
    let d = stored_dir(4, 7, 2);
    assert_eq!(d.name(), 4);
    assert_eq!(d.span(), 7);
}

#[test]
fn append_after_subtree_resets_last_entry_span() {
    let t = Tree::new(0, false, false);
    let mut c = CursorMut::new(t);
    assert_eq!(c.add_entry(dir(3)), Ok(()));
    assert_eq!(c.descend(), Ok(()));
    assert_eq!(c.add_entry(file(4)), Ok(()));
    assert_eq!(c.ascend(), Ok(()));
    // the root's last child was the subdirectory, of span 2; after the
    // append its last child is the new file, of span 1
    assert_eq!(c.add_entry(file(9)), Ok(()));
    let t = c.into_tree();
    assert_eq!(t.len(), 4);
    assert_eq!(t.get(0), stored_dir(0, 4, 1));
    assert_eq!(t.get(1), stored_dir(3, 2, 1));
    assert_eq!(t.get(2), file(4));
    assert_eq!(t.get(3), file(9));
}

#[test]
fn scan_skips_whole_subtree_of_earlier_sibling() {
    let t = Tree::new(0, false, false);
    let mut c = CursorMut::new(t);
    assert_eq!(c.add_entry(dir(3)), Ok(()));
    assert_eq!(c.descend(), Ok(()));
    assert_eq!(c.add_entry(file(4)), Ok(()));
    assert_eq!(c.ascend(), Ok(()));
    assert_eq!(c.add_entry(file(9)), Ok(()));
    // name 5 sorts between the subdirectory (3) and the file (9): the scan
    // jumps over the subdirectory's two slots and lands before the file
    assert_eq!(c.add_entry(file(5)), Ok(()));
    let t = c.into_tree();
    assert_eq!(t.len(), 5);
    assert_eq!(t.get(0), stored_dir(0, 5, 1));
    assert_eq!(t.get(1), stored_dir(3, 2, 1));
    assert_eq!(t.get(2), file(4));
    assert_eq!(t.get(3), file(5));
    assert_eq!(t.get(4), file(9));
}
