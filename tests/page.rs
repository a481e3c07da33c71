use flint::layout::TuplePointer;
use flint::page::{IndexEntry, IndexPage, IndexPageHeader, MAX_ENTRIES};

fn ptr(i: u32) -> TuplePointer {
    TuplePointer::new(i, (i % 31) as u8, (i % 100) as u16)
}

#[test]
fn test_index_page_header_size() {
    assert_eq!(std::mem::size_of::<IndexPageHeader>(), 64);
}

#[test]
fn test_index_entry_size() {
    assert_eq!(std::mem::size_of::<IndexEntry>(), 16);
}

#[test]
fn test_max_entries_per_page() {
    assert_eq!(IndexPage::max_entries(), 252);
}

#[test]
fn test_index_page_header_alignment() {
    let header = IndexPageHeader::new(true);
    assert_eq!(header.magic, 0x494E4458);
    assert!(header.is_leaf);
    assert_eq!(header.num_keys, 0);
    assert_eq!(header.prev_page_id, 0);
    assert_eq!(header.next_page_id, 0);
}

#[test]
fn binary_search_finds_each_key_after_sorted_inserts() {
    let mut page = IndexPage::new(true);
    let keys: Vec<u64> = vec![50, 10, 30, 20, 40, 5, 45];
    for &k in &keys {
        let (found, pos) = page.binary_search(k);
        assert!(!found);
        page.insert_at(pos, IndexEntry::new(k, ptr(k as u32))).unwrap();
    }
    let stored: Vec<u64> = page.entries().iter().map(|e| e.key).collect();
    assert_eq!(stored, vec![5, 10, 20, 30, 40, 45, 50]);
    for (i, &k) in stored.iter().enumerate() {
        assert_eq!(page.binary_search(k), (true, i));
    }
    assert_eq!(page.binary_search(25), (false, 3));
    assert_eq!(page.binary_search(0), (false, 0));
    assert_eq!(page.binary_search(99), (false, 7));
}

#[test]
fn insert_at_refuses_a_full_page_and_a_bad_position() {
    let mut page = IndexPage::new(true);
    assert!(page.insert_at(1, IndexEntry::new(1, ptr(1))).is_err());
    for k in 0..MAX_ENTRIES as u64 {
        page.insert_at(k as usize, IndexEntry::new(k, ptr(k as u32))).unwrap();
    }
    assert_eq!(page.num_keys(), 252);
    assert!(page.insert_at(0, IndexEntry::new(999, ptr(9))).is_err());
    assert_eq!(page.num_keys(), 252);
}

#[test]
fn page_bytes_round_trip() {
    let mut page = IndexPage::new(false);
    page.insert_at(0, IndexEntry::new(7, ptr(3))).unwrap();
    page.insert_at(1, IndexEntry::new(0xFFFF_FFFF_FFFF_FFFF, ptr(4))).unwrap();
    page.prev_page_id = 3;
    page.next_page_id = 9;
    let bytes = page.to_bytes();
    assert_eq!(bytes.len(), 4096);
    assert_eq!(&bytes[0..4], &[0x58, 0x44, 0x4E, 0x49]);
    assert_eq!(bytes[4], 0);
    assert_eq!(&bytes[6..8], &[2, 0]);
    assert_eq!(&bytes[64..72], &[7, 0, 0, 0, 0, 0, 0, 0]);
    let back = IndexPage::from_bytes(&bytes).unwrap();
    assert!(!back.is_leaf);
    assert_eq!(back.prev_page_id, 3);
    assert_eq!(back.next_sibling().map(|p| p.raw()), Some(9));
    assert_eq!(back.entries(), page.entries());
}

#[test]
fn page_with_bad_magic_is_refused() {
    let mut bytes = IndexPage::new(true).to_bytes();
    bytes[0] = 0;
    assert!(IndexPage::from_bytes(&bytes).is_err());
    let header = IndexPageHeader { magic: 1, ..IndexPageHeader::new(true) };
    assert!(header.validate().is_err());
    assert!(IndexPageHeader::new(false).validate().is_ok());
    let crowded = IndexPageHeader { num_keys: 300, ..IndexPageHeader::new(true) };
    assert!(crowded.validate().is_err());
    let full = IndexPageHeader { num_keys: 252, ..IndexPageHeader::new(true) };
    assert!(full.validate().is_ok());
}

#[test]
fn internal_entry_carries_child_page() {
    let child = flint::layout::PageId::new(2, 5);
    let e = IndexEntry::new_internal(11, child);
    assert_eq!(e.segment_id, 2 * 65536 + 5);
    assert_eq!(e.block_id, 0);
    assert_eq!(e.slot_id, 0);
    assert_eq!(e.as_child_page_id(), child);
    let t = IndexEntry::new(1, TuplePointer::new(4, 5, 6)).as_tuple_pointer();
    assert_eq!(t, TuplePointer::new(4, 5, 6));
}
