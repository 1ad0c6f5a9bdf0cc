use nfs_mirror::interner::PathInterner;
use nfs_mirror::pathmap::{key_of, same_bytes, same_path, PathBucket, PathIndex};

#[test]
fn interning_is_idempotent() {
    let mut table = PathInterner::new();
    assert_eq!(table.len(), 0);
    assert!(table.has_room());
    let a = table.intern(b"alpha".to_vec()).unwrap();
    let b = table.intern(b"beta".to_vec()).unwrap();
    assert_eq!((a, b), (0, 1));
    assert_eq!(table.intern(b"alpha".to_vec()), Some(a));
    assert_eq!(table.len(), 2);
}

#[test]
fn symbols_resolve_back() {
    let mut table = PathInterner::new();
    let a = table.intern(vec![0xff, 0x00, b'/']).unwrap();
    let b = table.intern(Vec::new()).unwrap();
    assert_eq!(table.get(a), Some(&[0xff, 0x00, b'/'][..]));
    assert_eq!(table.get(b), Some(&[][..]));
    assert_eq!(table.get(2), None);
}

#[test]
fn check_interned_does_not_insert() {
    let mut table = PathInterner::new();
    assert_eq!(table.check_interned(b"x"), None);
    assert_eq!(table.len(), 0);
    let x = table.intern(b"x".to_vec()).unwrap();
    assert_eq!(table.check_interned(b"x"), Some(x));
    assert_eq!(table.check_interned(b"y"), None);
    assert_eq!(table.len(), 1);
}

#[test]
fn path_index_binds_and_unbinds() {
    let mut index = PathIndex::new();
    assert_eq!(index.get(&[]), None);
    index.bind(vec![], 0);
    index.bind(vec![1, 2], 7);
    index.bind(vec![1], 3);
    assert_eq!(index.get(&[]), Some(0));
    assert_eq!(index.get(&[1, 2]), Some(7));
    assert_eq!(index.get(&[1]), Some(3));
    assert_eq!(index.get(&[2, 1]), None);
    index.bind(vec![1, 2], 8);
    assert_eq!(index.get(&[1, 2]), Some(8));
    index.unbind(&[]);
    assert_eq!(index.get(&[]), None);
    assert_eq!(index.get(&[1, 2]), Some(8));
    assert_eq!(index.get(&[1]), Some(3));
    index.unbind(&[5]);
    index.unbind(&[1, 2]);
    assert_eq!(index.get(&[1, 2]), None);
    assert_eq!(index.get(&[1]), Some(3));
}

#[test]
fn paths_compare_component_wise() {
    assert!(same_path(&[], &[]));
    assert!(same_path(&[1, 2, 3], &[1, 2, 3]));
    assert!(!same_path(&[1, 2], &[1, 2, 3]));
    assert!(!same_path(&[1, 2, 3], &[1, 9, 3]));
}

#[test]
fn equal_paths_share_a_key() {
    assert_eq!(key_of(&[]), 0);
    assert_eq!(key_of(&[0]), 1);
    assert_eq!(key_of(&[1, 2]), 65);
    assert_eq!(key_of(&[u32::MAX]), (u32::MAX as u64 + 1) % 4294967291);
    assert_eq!(key_of(&[7, 8, 9]), key_of(&vec![7, 8, 9]));
    assert!(key_of(&[u32::MAX; 40]) < 4294967291);
}

#[test]
fn a_bucket_keeps_each_path_once() {
    let mut bucket = PathBucket::new();
    bucket.bind(vec![4], 1);
    bucket.bind(vec![4, 4], 2);
    bucket.bind(vec![4], 3);
    assert_eq!(bucket.get(&[4]), Some(3));
    assert_eq!(bucket.get(&[4, 4]), Some(2));
    bucket.unbind(&[4]);
    assert_eq!(bucket.get(&[4]), None);
    assert_eq!(bucket.get(&[4, 4]), Some(2));
}

#[test]
fn many_paths_stay_apart() {
    let mut index = PathIndex::new();
    for a in 0..40u32 {
        for b in 0..40u32 {
            index.bind(vec![a, b], (a * 100 + b) as u64);
        }
    }
    for a in 0..40u32 {
        for b in 0..40u32 {
            assert_eq!(index.get(&[a, b]), Some((a * 100 + b) as u64));
        }
    }
    for a in 0..40u32 {
        index.unbind(&[a, a]);
    }
    assert_eq!(index.get(&[3, 3]), None);
    assert_eq!(index.get(&[3, 4]), Some(304));
    assert_eq!(index.get(&[3]), None);
}

#[test]
fn byte_strings_compare_byte_wise() {
    assert!(same_bytes(b"", b""));
    assert!(same_bytes(b"abc", b"abc"));
    assert!(!same_bytes(b"abc", b"abd"));
    assert!(!same_bytes(b"abc", b"ab"));
}
