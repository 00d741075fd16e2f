use bitcask_core::data::LogRecordPos;
use bitcask_core::indexer::btree::BTree;
use bitcask_core::indexer::{new_indexer, Indexer, IndexerType};

#[test]
fn test_put() {
    let mut bt = BTree::new();
    let k1 = b"k1";
    let pos1 = LogRecordPos {
        file_id: 1,
        offset: 10,
        data_size: 100,
    };
    let pos2 = LogRecordPos {
        file_id: 2,
        offset: 20,
        data_size: 200,
    };

    let res = bt.put(k1, &pos1);
    assert!(res.is_none(), "should return NOne for new key");

    let res = bt.put(k1, &pos2);
    assert_eq!(res, Some(pos1.clone()));

    let res = bt.put(k1, &pos1);
    assert_eq!(res, Some(pos2.clone()));
}

#[test]
fn test_get() {
    let mut bt = BTree::new();
    let k1 = b"k1";
    let pos1 = LogRecordPos {
        file_id: 1,
        offset: 10,
        data_size: 100,
    };

    bt.put(k1, &pos1);

    let res = bt.get(k1);
    assert_eq!(res, Some(pos1));
}

#[test]
fn test_delete() {
    let mut bt = BTree::new();
    let key = b"k1";
    let pos = LogRecordPos {
        file_id: 1,
        offset: 10,
        data_size: 100,
    };

    bt.put(key, &pos);

    let result = bt.delete(key);
    assert_eq!(
        result,
        Some(pos.clone()),
        "Delete should return the deleted value"
    );

    let result = bt.get(key);
    assert!(result.is_none(), "Key should be removed after delete");
}

#[test]
fn test_size() {
    let mut indexer = BTree::new();
    let key1 = b"k1";
    let key2 = b"k2";
    let pos = LogRecordPos {
        file_id: 1,
        offset: 10,
        data_size: 100,
    };

    assert_eq!(indexer.size(), 0, "Initial size should be 0");

    indexer.put(key1, &pos);
    assert_eq!(
        indexer.size(),
        1,
        "Size should be 1 after inserting 1 value"
    );

    indexer.put(key2, &pos);
    assert_eq!(
        indexer.size(),
        2,
        "Size should be 2 after inserting another value"
    );

    indexer.delete(key1);
    assert_eq!(indexer.size(), 1, "Size should be 1 after deleting 1 value");
}

#[test]
fn index_put_get_delete_sequence() {
    let mut idx = new_indexer(IndexerType::BTree);
    let p1 = LogRecordPos { file_id: 1, offset: 0, data_size: 11 };
    let p2 = LogRecordPos { file_id: 1, offset: 11, data_size: 12 };
    assert_eq!(idx.size(), 0);
    assert_eq!(idx.put(b"k", &p1), None);
    assert_eq!(idx.size(), 1);
    assert_eq!(idx.put(b"k", &p2), Some(p1));
    assert_eq!(idx.size(), 1);
    assert_eq!(idx.get(b"k"), Some(p2));
    assert_eq!(idx.delete(b"k"), Some(p2));
    assert_eq!(idx.get(b"k"), None);
    assert_eq!(idx.size(), 0);
}

#[test]
fn index_keys_are_distinct_byte_strings() {
    let mut idx = BTree::new();
    let p = LogRecordPos { file_id: 3, offset: 7, data_size: 9 };
    idx.put(b"ab", &p);
    assert_eq!(idx.get(b"a"), None);
    assert_eq!(idx.get(b"abc"), None);
    assert_eq!(idx.delete(b"b"), None);
    assert_eq!(idx.size(), 1);
    assert_eq!(idx.get(b""), None);
}
