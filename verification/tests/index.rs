use kvs::index::{Index, ValuePointer};

#[test]
fn index_looks_up_upserts_and_erases() {
    let first = ValuePointer { segment: 1, offset: 0, version: 0 };
    let second = ValuePointer { segment: 2, offset: 17, version: 1 };
    let mut index = Index::new();
    assert_eq!(index.lookup("k"), None);
    index.upsert("k".to_owned(), first);
    assert_eq!(index.lookup("k"), Some(first));
    index.upsert("k".to_owned(), second);
    assert_eq!(index.lookup("k"), Some(second));
    assert_eq!(index.lookup("other"), None);
    assert_eq!(index.erase("k"), Some(second));
    assert_eq!(index.erase("k"), None);
    assert_eq!(index.lookup("k"), None);
}
