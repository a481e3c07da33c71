use flint::disk::DiskFile;
use flint::error::StorageError;
use flint::files::{IndexFile, TableFile};
use flint::layout::PageId;

#[test]
fn test_table_file_creation() {
    let table_file = TableFile::open("test_table.tbl".to_string(), DiskFile::new());
    assert_eq!(table_file.next_segment_id(), 0);
}

#[test]
fn test_allocate_segment() {
    let mut table_file = TableFile::open("test_segment.tbl".to_string(), DiskFile::new());
    let seg_id = table_file.allocate_segment().expect("Failed to allocate segment");
    assert_eq!(seg_id, 0);
    assert_eq!(table_file.next_segment_id(), 1);
}

#[test]
fn segment_allocator_interleaving() {
    let mut f = TableFile::open("s.tbl".to_string(), DiskFile::new());
    f.allocate_segment().unwrap();
    f.allocate_segment().unwrap();
    assert_eq!(f.allocate_block(0).unwrap(), Some(1));
    assert_eq!(f.allocate_block(0).unwrap(), Some(2));
    assert_eq!(f.allocate_block(1).unwrap(), Some(0));
    f.free_block(0, 1).unwrap();
    assert_eq!(f.allocate_block(0).unwrap(), Some(1));
    assert_eq!(f.allocate_block(0).unwrap(), Some(3));
    f.free_block(0, 2).unwrap();
    let h = f.read_segment_header(0).unwrap();
    let used = (0..31).filter(|&b| !h.is_block_free(b)).count() as u32;
    assert_eq!(h.blocks_used, used);
    assert_eq!(h.blocks_used, 2);
}

#[test]
fn segment_fills_up() {
    let mut f = TableFile::open("s.tbl".to_string(), DiskFile::new());
    f.allocate_segment().unwrap();
    for b in 1..31u8 {
        assert_eq!(f.allocate_block(0).unwrap(), Some(b));
    }
    assert_eq!(f.allocate_block(0).unwrap(), None);
    assert_eq!(f.read_segment_header(0).unwrap().blocks_used, 30);
}

#[test]
fn block_ids_are_bounds_checked() {
    let mut f = TableFile::open("s.tbl".to_string(), DiskFile::new());
    f.allocate_segment().unwrap();
    assert_eq!(f.read_block(0, 31).err(), Some(StorageError::Invalid("block id out of range")));
    let b = flint::block::Block::new();
    assert!(f.write_block(0, 31, &b).is_err());
    f.write_block(0, 4, &b).unwrap();
    assert_eq!(f.disk.len(), 65536 * 6);
    assert_eq!(f.read_block(0, 4).unwrap().as_bytes(), b.as_bytes());
}

#[test]
fn segment_header_magic_is_checked() {
    let f = TableFile::open("s.tbl".to_string(), DiskFile::from_bytes(vec![0u8; 65536]));
    assert!(matches!(f.read_segment_header(0), Err(StorageError::CorruptData(_))));
    let g = TableFile::open("s.tbl".to_string(), DiskFile::new());
    assert!(matches!(g.read_segment_header(0), Err(StorageError::Io(_))));
}

#[test]
fn index_file_pages() {
    let mut f = IndexFile::open("i.idx".to_string(), DiskFile::new());
    assert_eq!(f.allocate_page().unwrap(), PageId::new(0, 0));
    assert_eq!(f.allocate_page().unwrap(), PageId::new(0, 1));
    assert_eq!(f.next_page_id(), 2);
    assert_eq!(
        f.write_page(PageId::new(0, 1), &[1, 2, 3]).err(),
        Some(StorageError::Invalid("page data must be exactly 4096 bytes"))
    );
    let page = vec![5u8; 4096];
    f.write_page(PageId::new(0, 1), &page).unwrap();
    assert_eq!(f.read_page(PageId::new(0, 1)).unwrap(), page);
    assert_eq!(f.read_page(PageId::new(0, 0)).unwrap(), vec![0u8; 4096]);
    assert!(f.read_page(PageId::new(0, 2)).is_err());
}

#[test]
fn index_file_stops_at_its_last_page() {
    let mut f = IndexFile::open("i.idx".to_string(), DiskFile::new());
    f.set_next_page_id(65535).unwrap();
    assert_eq!(f.allocate_page().unwrap(), PageId::new(0, 65535));
    assert!(f.allocate_page().is_err());
    assert_eq!(f.next_page_id(), 65536);
}

#[test]
fn freeing_a_free_block_in_a_file_keeps_the_count() {
    let mut f = TableFile::open("s.tbl".to_string(), DiskFile::new());
    f.allocate_segment().unwrap();
    assert_eq!(f.allocate_block(0).unwrap(), Some(1));
    f.free_block(0, 5).unwrap();
    assert_eq!(f.read_segment_header(0).unwrap().blocks_used, 1);
}

#[test]
fn page_id_packing() {
    let p = PageId::new(3, 7);
    assert_eq!(p.raw(), (3 << 16) | 7);
    assert_eq!(p.segment_id(), 3);
    assert_eq!(p.page_offset(), 7);
}

#[test]
fn disk_reads_past_end_fail() {
    let mut d = DiskFile::new();
    d.write_at(10, &[1, 2]).unwrap();
    assert_eq!(d.len(), 12);
    assert_eq!(d.read_at(0, 12).unwrap(), vec![0, 0, 0, 0, 0, 0, 0, 0, 0, 0, 1, 2]);
    assert_eq!(d.read_at(11, 2).err(), Some(StorageError::Io("unexpected end of file")));
}
