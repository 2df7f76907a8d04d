use bitcask::index::{Index, IndexValue};

#[test]
fn bitcask_index_update() {
    let mut index = Index::new();
    assert_eq!(
        index.update(vec![0, 1, 2, 3, 4], IndexValue::new(0, 0, 5, 0)).is_none(),
        true
    );
    assert_eq!(
        index.update(vec![0, 1, 2, 3, 4], IndexValue::new(0, 0, 10, 100)).is_some(),
        true
    );
}

#[test]
fn bitcask_index_lookup() {
    let mut index = Index::new();
    assert_eq!(index.lookup(vec![0, 1, 2, 3, 4]).is_err(), true,);
    index.update(vec![0, 1, 2, 3, 4], IndexValue::new(0, 0, 5, 0));
    assert_eq!(
        index.lookup(vec![0, 1, 2, 3, 4]).unwrap(),
        IndexValue::new(0, 0, 5, 0)
    );
}

#[test]
fn lib_index_update() {
    let mut index = Index::new();
    assert_eq!(
        index.update(vec![0, 1, 2, 3, 4], IndexValue::new(0, 0, 5, 0)).is_none(),
        true
    );
    assert_eq!(
        index.update(vec![0, 1, 2, 3, 4], IndexValue::new(0, 0, 10, 100)).is_some(),
        true
    );
}

#[test]
fn lib_index_lookup() {
    let mut index = Index::new();
    assert_eq!(index.lookup(vec![0, 1, 2, 3, 4]).is_err(), true,);
    index.update(vec![0, 1, 2, 3, 4], IndexValue::new(0, 0, 5, 0));
    assert_eq!(
        index.lookup(vec![0, 1, 2, 3, 4]).unwrap(),
        IndexValue::new(0, 0, 5, 0)
    );
}

#[test]
fn log_index_update() {
    let mut index = Index::new();
    assert_eq!(
        index.update(vec![0, 1, 2, 3, 4], IndexValue::new(0, 0, 5, 0)).is_none(),
        true
    );
    assert_eq!(
        index.update(vec![0, 1, 2, 3, 4], IndexValue::new(0, 0, 10, 100)).is_some(),
        true
    );
}

#[test]
fn log_index_lookup() {
    let mut index = Index::new();
    assert_eq!(index.lookup(vec![0, 1, 2, 3, 4]).is_err(), true,);
    index.update(vec![0, 1, 2, 3, 4], IndexValue::new(0, 0, 5, 0));
    assert_eq!(
        index.lookup(vec![0, 1, 2, 3, 4]).unwrap(),
        IndexValue::new(0, 0, 5, 0)
    );
}

#[test]
fn index_update_returns_displaced_location() {
    let mut index = Index::new();
    let first = IndexValue::new(1, 0, 5, 50);
    let second = IndexValue::new(2, 0, 55, 60);
    assert_eq!(index.update(b"k".to_vec(), first), None);
    assert_eq!(index.update(b"k".to_vec(), second), Some(first));
    assert_eq!(index.lookup(b"k".to_vec()).unwrap(), second);
}

#[test]
fn index_missing_key_is_handed_back() {
    let mut index = Index::new();
    index.update(b"present".to_vec(), IndexValue::new(0, 0, 0, 41));
    let err = index.lookup(b"absent".to_vec()).unwrap_err();
    assert_eq!(err.0, b"absent".to_vec());
    assert!(index.contains(&b"present".to_vec()));
    assert!(!index.contains(&b"absent".to_vec()));
}

#[test]
fn index_keys_are_exact_bytes() {
    let mut index = Index::new();
    index.update(b"Hello".to_vec(), IndexValue::new(0, 0, 0, 51));
    assert!(index.lookup(b"hello".to_vec()).is_err());
    assert!(index.lookup(b"Hello ".to_vec()).is_err());
    assert!(index.lookup(Vec::new()).is_err());
}

#[test]
fn locations_order_by_offset_alone() {
    let early = IndexValue::new(900, 0, 5, 1);
    let late = IndexValue::new(1, 0, 10, 1);
    assert!(early < late);
    assert_eq!(early.partial_cmp(&late), Some(std::cmp::Ordering::Less));
    assert_eq!(
        IndexValue::new(1, 0, 7, 1).partial_cmp(&IndexValue::new(2, 0, 7, 9)),
        Some(std::cmp::Ordering::Equal)
    );
}
