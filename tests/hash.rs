use flint::disk::DiskFile;
use flint::files::IndexFile;
use flint::hash::HashIndex;
use flint::index::{register_builtin_indexes, Index, IndexBuilderRegistry, IndexCapability};
use flint::layout::TuplePointer;

fn ptr(i: u64) -> TuplePointer {
    TuplePointer::new(i as u32, (i % 31) as u8, (i % 500) as u16)
}

#[test]
fn hash_index_round_trip() {
    let mut file = IndexFile::open("h.idx".to_string(), DiskFile::new());
    let mut h = HashIndex::with_seed(None, 0x1234);
    for k in 0..2000u64 {
        h.insert(k * 3, ptr(k), &mut file).unwrap();
    }
    for k in 0..2000u64 {
        assert_eq!(h.search(k * 3, &file).unwrap(), Some(ptr(k)));
    }
    assert_eq!(h.search(1, &file).unwrap(), None);
    h.insert(9, ptr(77), &mut file).unwrap();
    assert_eq!(h.search(9, &file).unwrap(), Some(ptr(77)));
}

#[test]
fn hash_index_with_a_drawn_seed() {
    let mut file = IndexFile::open("h.idx".to_string(), DiskFile::new());
    let mut h = HashIndex::new(None);
    for k in 0..600u64 {
        h.insert(k, ptr(k), &mut file).unwrap();
    }
    for k in 0..600u64 {
        assert_eq!(h.search(k, &file).unwrap(), Some(ptr(k)));
    }
}

#[test]
fn hash_key_mixing() {
    let h = HashIndex::with_seed(None, 0);
    let mut x: u64 = 5;
    x = x.wrapping_mul(0xff51afd7ed558ccd);
    x ^= x >> 32;
    x = x.wrapping_mul(0xc4ceb9fe1a85ec53);
    x ^= x >> 33;
    assert_eq!(h.hash_key(5), (x >> 32) as u32);
    assert_ne!(HashIndex::with_seed(None, 1).hash_key(5), h.hash_key(5));
}

#[test]
fn registry_builds_by_name() {
    let mut reg = IndexBuilderRegistry::new();
    assert!(reg.create_index("btree", None).is_none());
    register_builtin_indexes(&mut reg);
    let mut names = reg.available_types();
    names.sort();
    assert_eq!(names, vec!["btree".to_string(), "hash".to_string()]);
    let b = reg.create_index("btree", None).unwrap();
    assert_eq!(b.index_type(), "btree");
    assert_eq!(b.capability(), IndexCapability::Ordered);
    let h = reg.create_index("hash", None).unwrap();
    assert_eq!(h.capability(), IndexCapability::PointOnly);
    assert!(reg.create_index("gin", None).is_none());
    let file = IndexFile::open("e.idx".to_string(), DiskFile::new());
    assert_eq!(h.range_scan(0, 10, &file).unwrap(), vec![]);
    assert!(matches!(h, Index::Hash(_)));
}
