use std::path::PathBuf;

use bitcask::data::log_record::LogRecordPos;
use bitcask::index::skiplist::SkipList;
use bitcask::index::{new_indexer, Index, IndexIterator};
use bitcask::option::{IndexType, IteratorOptions};

fn pos(file_id: u32, offset: u64) -> LogRecordPos {
    LogRecordPos { file_id, offset, size: 11 }
}

fn fill(index: &mut SkipList) {
    for key in ["aacd", "acdd", "bbae", "ddee"] {
        let res = index.put(key.as_bytes().to_vec(), pos(1123, 1232));
        assert!(res.is_none());
    }
}

fn test_put(index: &mut SkipList) {
    fill(index);
    let res5 = index.put("ddee".as_bytes().to_vec(), pos(93, 22));
    assert!(res5.is_some());
    let v = res5.unwrap();
    assert_eq!(v.file_id, 1123);
    assert_eq!(v.offset, 1232);
}

#[test]
fn test_skl_put() {
    let mut skl = SkipList::new();
    test_put(&mut skl);
}

fn test_get(index: &mut SkipList) {
    let v1 = index.get(b"not exists".to_vec());
    assert!(v1.is_none());

    let res1 = index.put("aacd".as_bytes().to_vec(), pos(1123, 1232));
    assert!(res1.is_none());
    let v2 = index.get(b"aacd".to_vec());
    assert!(v2.is_some());
    assert_eq!(v2.unwrap().file_id, 1123);
    assert_eq!(v2.unwrap().offset, 1232);
    assert_eq!(v2.unwrap().size, 11);

    let res2 = index.put("aacd".as_bytes().to_vec(), pos(11, 990));
    assert!(res2.is_some());
    let v3 = index.get(b"aacd".to_vec());
    assert!(v3.is_some());
}

#[test]
fn test_skl_get() {
    let mut skl = SkipList::new();
    test_get(&mut skl);
}

fn test_delete(index: &mut SkipList) {
    let r1 = index.delete(b"not exists".to_vec());
    assert!(r1.is_none());

    let res1 = index.put("aacd".as_bytes().to_vec(), pos(1123, 1232));
    assert!(res1.is_none());

    let r2 = index.delete(b"aacd".to_vec());
    assert!(r2.is_some());
    let v = r2.unwrap();
    assert_eq!(v.file_id, 1123);
    assert_eq!(v.offset, 1232);

    let v2 = index.get(b"aacd".to_vec());
    assert!(v2.is_none());
}

#[test]
fn test_skl_delete() {
    let mut skl = SkipList::new();
    test_delete(&mut skl);
}

fn test_keys(index: &mut SkipList) {
    let keys1 = index.list_keys();
    assert_eq!(keys1.ok().unwrap().len(), 0);
    fill(index);
    let keys2 = index.list_keys();
    assert_eq!(keys2.ok().unwrap().len(), 4);
}

#[test]
fn test_skl_list_keys() {
    let mut skl = SkipList::new();
    test_keys(&mut skl);
}

fn test_iterator(index: &mut SkipList) {
    fill(index);
    let mut opts = IteratorOptions::default();
    opts.reverse = true;
    let mut iter1 = index.iterator(opts);
    while let Some((key, _)) = iter1.next() {
        assert!(!key.is_empty());
    }
}

#[test]
fn test_skl_iterator() {
    let mut skl = SkipList::new();
    test_iterator(&mut skl);
}

fn keys_of(iter: &mut impl IndexIterator) -> Vec<String> {
    let mut out = Vec::new();
    while let Some((key, _)) = iter.next() {
        out.push(String::from_utf8(key).unwrap());
    }
    out
}

#[test]
fn list_keys_is_ascending() {
    let mut skl = SkipList::new();
    for key in ["ddee", "aacd", "bbae", "acdd"] {
        skl.put(key.as_bytes().to_vec(), pos(1, 0));
    }
    let keys = skl.list_keys().ok().unwrap();
    let expected: Vec<Vec<u8>> =
        ["aacd", "acdd", "bbae", "ddee"].iter().map(|k| k.as_bytes().to_vec()).collect();
    assert_eq!(keys, expected);
}

#[test]
fn iterator_with_prefix_yields_matching_keys_only() {
    let mut skl = SkipList::new();
    fill(&mut skl);
    let opts = IteratorOptions { prefix: b"bb".to_vec(), reverse: false };
    let mut iter = skl.iterator(opts);
    let first = iter.next().unwrap();
    assert_eq!(first.0, b"bbae".to_vec());
    assert_eq!(first.1, pos(1123, 1232));
    assert!(iter.next().is_none());
    assert!(iter.next().is_none());
}

#[test]
fn reverse_iterator_is_descending() {
    let mut skl = SkipList::new();
    fill(&mut skl);
    let mut opts = IteratorOptions::default();
    opts.reverse = true;
    let mut iter = skl.iterator(opts);
    assert_eq!(keys_of(&mut iter), vec!["ddee", "bbae", "acdd", "aacd"]);
    iter.rewind();
    assert_eq!(keys_of(&mut iter), vec!["ddee", "bbae", "acdd", "aacd"]);
}

#[test]
fn iterator_is_a_snapshot() {
    let mut skl = SkipList::new();
    fill(&mut skl);
    let mut iter = skl.iterator(IteratorOptions::default());
    skl.put(b"zzzz".to_vec(), pos(2, 0));
    skl.delete(b"aacd".to_vec());
    assert_eq!(keys_of(&mut iter), vec!["aacd", "acdd", "bbae", "ddee"]);
}

#[test]
fn seek_goes_to_first_key_not_before_target() {
    let mut skl = SkipList::new();
    fill(&mut skl);
    let mut iter = skl.iterator(IteratorOptions::default());
    iter.seek(b"b".to_vec());
    assert_eq!(keys_of(&mut iter), vec!["bbae", "ddee"]);
    iter.seek(b"acdd".to_vec());
    assert_eq!(keys_of(&mut iter), vec!["acdd", "bbae", "ddee"]);
    iter.seek(b"zz".to_vec());
    assert!(iter.next().is_none());

    let mut rev = skl.iterator(IteratorOptions { prefix: Vec::new(), reverse: true });
    rev.seek(b"b".to_vec());
    assert_eq!(keys_of(&mut rev), vec!["acdd", "aacd"]);
    rev.seek(b"bbae".to_vec());
    assert_eq!(keys_of(&mut rev), vec!["bbae", "acdd", "aacd"]);
}

#[test]
fn put_returns_location_of_previous_put() {
    let mut skl = SkipList::new();
    assert!(skl.put(b"k".to_vec(), pos(1, 0)).is_none());
    skl.put(b"other".to_vec(), pos(1, 10));
    assert_eq!(skl.put(b"k".to_vec(), pos(1, 20)), Some(pos(1, 0)));
    assert_eq!(skl.put(b"k".to_vec(), pos(2, 0)), Some(pos(1, 20)));
    assert_eq!(skl.get(b"k".to_vec()), Some(pos(2, 0)));
}

#[test]
fn new_indexer_is_empty() {
    let idx = new_indexer(IndexType::SkipList, PathBuf::from("/tmp/unused"));
    assert!(idx.list_keys().ok().unwrap().is_empty());
}
