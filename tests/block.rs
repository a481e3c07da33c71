use flint::block::Block;
use flint::layout::{SegmentHeader, TuplePointer, BLOCK_SIZE};

#[test]
fn fresh_block_header() {
    let b = Block::new();
    let h = b.header();
    assert_eq!((h.slot_count, h.flags, h.free_start, h.free_end), (0, 0, 16, 65536));
    assert_eq!(h.free_space(), 65520);
    assert_eq!(b.as_bytes().len(), BLOCK_SIZE);
}

#[test]
fn block_accounting_after_appends() {
    let mut b = Block::new();
    let payloads: Vec<Vec<u8>> = vec![vec![1; 10], vec![2; 300], vec![3; 1], vec![4; 4000]];
    let mut total = 0usize;
    for (i, p) in payloads.iter().enumerate() {
        assert_eq!(b.append_tuple(p), Some(i as u16));
        total += p.len();
    }
    let h = b.header();
    assert_eq!(h.slot_count, 4);
    assert_eq!(total as u32, 65536 - h.free_end);
    assert_eq!(h.free_start, 16 + 4 * 4);
}

#[test]
fn appended_tuples_read_back() {
    let mut b = Block::new();
    let payloads: Vec<Vec<u8>> = vec![b"alpha".to_vec(), vec![], b"gamma!".to_vec(), vec![9; 1000]];
    for p in &payloads {
        b.append_tuple(p).unwrap();
    }
    for (i, p) in payloads.iter().enumerate() {
        assert_eq!(b.read_tuple(i as u16).as_deref(), Some(p.as_slice()));
    }
    assert_eq!(b.read_tuple(4), None);
}

#[test]
fn empty_first_tuple_reads_as_empty_slot() {
    let mut b = Block::new();
    assert_eq!(b.append_tuple(&[]), Some(0));
    assert_eq!(b.read_tuple(0), None);
}

#[test]
fn full_block_refuses_and_stays_unchanged() {
    let mut b = Block::new();
    assert_eq!(b.append_tuple(&vec![7u8; 65516]), Some(0));
    let before = b.as_bytes().to_vec();
    assert_eq!(b.append_tuple(&[1]), None);
    assert_eq!(b.as_bytes(), before.as_slice());
    let mut c = Block::new();
    assert_eq!(c.append_tuple(&vec![7u8; 65517]), None);
}

#[test]
fn block_bytes_are_checked_on_load() {
    let mut b = Block::new();
    b.append_tuple(b"row").unwrap();
    let ok = Block::from_bytes(b.as_bytes().to_vec()).unwrap();
    assert_eq!(ok.read_tuple(0).unwrap(), b"row".to_vec());
    assert!(Block::from_bytes(vec![0u8; BLOCK_SIZE]).is_none());
    assert!(Block::from_bytes(vec![0u8; 100]).is_none());
}

#[test]
fn segment_header_counts_used_blocks() {
    let mut h = SegmentHeader::new(3);
    assert_eq!(h.block_free_bitmap, u32::MAX);
    assert!(h.is_block_free(0));
    h.mark_block_used(0);
    h.mark_block_used(5);
    assert!(!h.is_block_free(5));
    assert_eq!(h.blocks_used, 2);
    assert_eq!(h.block_free_bitmap, !((1 << 0) | (1 << 5)));
    h.mark_block_free(5);
    assert_eq!(h.blocks_used, 1);
    assert_eq!(31 - (0..31).filter(|&i| h.is_block_free(i)).count() as u32, h.blocks_used);
    h.mark_block_free(0);
    h.mark_block_free(0);
    assert_eq!(h.blocks_used, 0);
}

#[test]
fn freeing_a_free_block_keeps_the_count() {
    let mut h = SegmentHeader::new(0);
    h.mark_block_used(1);
    h.mark_block_used(2);
    h.mark_block_free(7);
    assert_eq!(h.blocks_used, 2);
    h.mark_block_free(1);
    h.mark_block_free(1);
    assert_eq!(h.blocks_used, 1);
    assert!(!h.is_block_free(2));
}

#[test]
fn tuple_pointer_block_offset() {
    let p = TuplePointer::new(2, 3, 0);
    assert_eq!(p.block_offset(), 2 * 2097152 + 65536 + 3 * 65536);
}
