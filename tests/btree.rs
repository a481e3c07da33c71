use flint::btree::{entries_in_range, BTree};
use flint::disk::DiskFile;
use flint::files::IndexFile;
use flint::layout::{PageId, TuplePointer};
use flint::page::{IndexEntry, IndexPage};

fn ptr(i: u64) -> TuplePointer {
    TuplePointer::new(i as u32, (i % 31) as u8, (i % 1000) as u16)
}

fn tree_with_root() -> (BTree, IndexFile) {
    let mut file = IndexFile::open("t.idx".to_string(), DiskFile::new());
    let root = file.allocate_page().unwrap();
    file.write_page(root, &IndexPage::new(true).to_bytes()).unwrap();
    (BTree::new(Some(root)), file)
}

#[test]
fn test_btree_creation_empty() {
    let btree = BTree::new(None);
    assert_eq!(btree.root_page_id(), None);
}

#[test]
fn test_btree_creation_with_root() {
    let page_id = PageId::new(0, 0);
    let btree = BTree::new(Some(page_id));
    assert_eq!(btree.root_page_id(), Some(page_id));
}

#[test]
fn upsert_twice_leaves_one_entry() {
    let mut page = IndexPage::new(true);
    BTree::insert_into_page(&mut page, 5, ptr(1)).unwrap();
    BTree::insert_into_page(&mut page, 3, ptr(2)).unwrap();
    BTree::insert_into_page(&mut page, 5, ptr(7)).unwrap();
    BTree::insert_into_page(&mut page, 5, ptr(7)).unwrap();
    let entries = page.entries();
    assert_eq!(entries.len(), 2);
    assert_eq!(entries[1], IndexEntry::new(5, ptr(7)));
    assert_eq!(BTree::search_page(&page, 5), Some(ptr(7)));
    assert_eq!(BTree::search_page(&page, 4), None);
}

#[test]
fn tree_upsert_keeps_one_entry_for_the_key() {
    let (mut tree, mut file) = tree_with_root();
    assert!(tree.insert(9, ptr(1), &mut file).unwrap().is_none());
    assert!(tree.insert(9, ptr(1), &mut file).unwrap().is_none());
    assert_eq!(tree.search(9, &file).unwrap(), Some(ptr(1)));
    assert_eq!(tree.full_scan(&file).unwrap(), vec![(9, ptr(1))]);
}

#[test]
fn index_page_split_promotes_the_midpoint() {
    let (mut tree, mut file) = tree_with_root();
    for i in 0..252u64 {
        assert!(tree.insert(i, ptr(i), &mut file).unwrap().is_none());
    }
    let split = tree.insert(252, ptr(252), &mut file).unwrap().expect("the 253rd insert splits");
    assert_eq!(split.promoted_key, 126);
    let right = IndexPage::from_bytes(&split.right_sibling_data).unwrap();
    assert_eq!(right.entries()[0].key, 126);
    assert_eq!(right.num_keys(), 127);
    for i in 0..253u64 {
        assert_eq!(tree.search(i, &file).unwrap(), Some(ptr(i)), "key {}", i);
    }
    assert_eq!(tree.search(253, &file).unwrap(), None);
}

#[test]
fn tree_keeps_growing_after_the_root_splits() {
    let (mut tree, mut file) = tree_with_root();
    for i in 0..1000u64 {
        let k = (i * 7919) % 1000;
        tree.insert(k, ptr(k), &mut file).unwrap();
    }
    for k in 0..1000u64 {
        assert_eq!(tree.search(k, &file).unwrap(), Some(ptr(k)));
    }
    let range = tree.range_scan(100, 399, &file).unwrap();
    assert_eq!(range.len(), 300);
    assert!(range.iter().enumerate().all(|(i, (k, p))| *k == 100 + i as u64 && *p == ptr(*k)));
}

#[test]
fn range_scan_of_one_page() {
    let mut page = IndexPage::new(true);
    for k in [1u64, 3, 5, 7, 9] {
        BTree::insert_into_page(&mut page, k, ptr(k)).unwrap();
    }
    assert_eq!(BTree::range_scan_page(&page, 3, 7), vec![(3, ptr(3)), (5, ptr(5)), (7, ptr(7))]);
    assert_eq!(BTree::range_scan_page(&page, 10, 20), vec![]);
    assert_eq!(BTree::scan_page(&page).len(), 5);
    let _ = entries_in_range;
}

#[test]
fn search_without_root_is_an_error() {
    let file = IndexFile::open("x.idx".to_string(), DiskFile::new());
    assert!(BTree::new(None).search(1, &file).is_err());
}
