//! The in-memory index: an ordered map from key bytes to the location of the
//! key's latest record.
pub mod keys;
pub mod skiplist;

use vstd::prelude::*;

use crate::data::log_record::LogRecordPos;
use crate::data::varint::starts_with;
use crate::error::Result;
use crate::option::{IndexType, IteratorOptions};
use keys::{in_order, lex_lt};
use skiplist::{SkipList, SkipListIterator};

verus! {

#[verifier::external_type_specification]
#[verifier::external_body]
pub struct ExPathBuf(std::path::PathBuf);

/// What a map holds under `k`, if anything.
pub open spec fn lookup(m: Map<Seq<u8>, LogRecordPos>, k: Seq<u8>) -> Option<LogRecordPos> {
    if m.contains_key(k) {
        Some(m[k])
    } else {
        None
    }
}

/// `items` holds each entry of `m` once, in ascending key order, or in
/// descending order when `reverse` holds.
pub open spec fn is_snapshot(
    m: Map<Seq<u8>, LogRecordPos>,
    items: Seq<(Vec<u8>, LogRecordPos)>,
    reverse: bool,
) -> bool {
    &&& forall|i: int, j: int|
        0 <= i < j < items.len() ==> in_order(#[trigger] items[i].0@, #[trigger] items[j].0@, reverse)
    &&& forall|i: int|
        0 <= i < items.len() ==> m.contains_key(#[trigger] items[i].0@) && m[items[i].0@]
            == items[i].1
    &&& forall|k: Seq<u8>|
        #[trigger] m.contains_key(k) ==> exists|i: int| 0 <= i < items.len() && items[i].0@ == k
}

/// `keys` holds each key of `m` once, in ascending order.
pub open spec fn lists_keys(m: Map<Seq<u8>, LogRecordPos>, keys: Seq<Vec<u8>>) -> bool {
    &&& forall|i: int, j: int|
        0 <= i < j < keys.len() ==> lex_lt(#[trigger] keys[i]@, #[trigger] keys[j]@)
    &&& forall|i: int| 0 <= i < keys.len() ==> m.contains_key(#[trigger] keys[i]@)
    &&& forall|k: Seq<u8>|
        #[trigger] m.contains_key(k) ==> exists|i: int| 0 <= i < keys.len() && keys[i]@ == k
}

/// The entries of `items` from position `i` on whose key starts with
/// `prefix`, in their order there.
pub open spec fn walk_from(items: Seq<(Vec<u8>, LogRecordPos)>, i: int, prefix: Seq<u8>) -> Seq<
    (Seq<u8>, LogRecordPos),
>
    decreases items.len() - i,
{
    if i < 0 || i >= items.len() {
        Seq::empty()
    } else if starts_with(items[i].0@, prefix) {
        seq![(items[i].0@, items[i].1)] + walk_from(items, i + 1, prefix)
    } else {
        walk_from(items, i + 1, prefix)
    }
}

/// An ordered map from keys to record locations.
pub trait Index {
    /// What the index holds.
    spec fn entries(&self) -> Map<Seq<u8>, LogRecordPos>;

    /// Stores `pos` under `key` and returns the location it displaced.
    fn put(&mut self, key: Vec<u8>, pos: LogRecordPos) -> (r: Option<LogRecordPos>)
        ensures
            final(self).entries() == old(self).entries().insert(key@, pos),
            r == lookup(old(self).entries(), key@),
    ;

    /// The location stored under `key`.
    fn get(&self, key: Vec<u8>) -> (r: Option<LogRecordPos>)
        ensures
            r == lookup(self.entries(), key@),
    ;

    /// Removes `key` and returns the location it held.
    fn delete(&mut self, key: Vec<u8>) -> (r: Option<LogRecordPos>)
        ensures
            final(self).entries() == old(self).entries().remove(key@),
            r == lookup(old(self).entries(), key@),
    ;

    /// Every key, in ascending order.
    fn list_keys(&self) -> (r: Result<Vec<Vec<u8>>>)
        ensures
            r matches Ok(keys) && lists_keys(self.entries(), keys@),
    ;

    /// A cursor over a copy of the entries taken now, which later changes to
    /// the index do not touch.
    fn iterator(&self, options: IteratorOptions) -> (r: SkipListIterator)
        ensures
            r.wf(),
            is_snapshot(self.entries(), r.items@, options.reverse),
            r.curr_index == 0,
            r.options.prefix@ == options.prefix@,
            r.options.reverse == options.reverse,
    ;
}

/// A cursor over index entries.
pub trait IndexIterator {
    /// The cursor's own invariant: its entries are in the walk's order.
    spec fn wf(&self) -> bool;

    /// Every entry that the cursor walks over, in order.
    spec fn walk(&self) -> Seq<(Seq<u8>, LogRecordPos)>;

    /// The entries that `next` has still to hand out, in order.
    spec fn pending(&self) -> Seq<(Seq<u8>, LogRecordPos)>;

    /// The walk is in descending key order.
    spec fn descending(&self) -> bool;

    /// Goes back to the first entry.
    fn rewind(&mut self)
        ensures
            old(self).wf() ==> final(self).wf(),
            final(self).walk() == old(self).walk(),
            final(self).descending() == old(self).descending(),
            final(self).pending() == old(self).walk(),
    ;

    /// Goes to the first entry whose key is not before `key` in the walk's
    /// order: at or after it, or at or below it for a descending walk.
    fn seek(&mut self, key: Vec<u8>)
        requires
            old(self).wf(),
        ensures
            final(self).wf(),
            final(self).walk() == old(self).walk(),
            final(self).descending() == old(self).descending(),
            exists|n: int|
                0 <= n <= old(self).walk().len() && final(self).pending() == old(self).walk().skip(
                    n,
                ) && (forall|i: int|
                    0 <= i < n ==> in_order(
                        #[trigger] old(self).walk()[i].0,
                        key@,
                        old(self).descending(),
                    )) && (forall|i: int|
                    n <= i < old(self).walk().len() ==> !in_order(
                        #[trigger] old(self).walk()[i].0,
                        key@,
                        old(self).descending(),
                    )),
    ;

    /// Hands out the next entry, or `None` once the walk is over.
    fn next(&mut self) -> (r: Option<(Vec<u8>, LogRecordPos)>)
        ensures
            old(self).wf() ==> final(self).wf(),
            final(self).walk() == old(self).walk(),
            final(self).descending() == old(self).descending(),
            match r {
                None => old(self).pending().len() == 0 && final(self).pending().len() == 0,
                Some((k, p)) => old(self).pending().len() > 0 && old(self).pending()[0] == (k@, p)
                    && final(self).pending() == old(self).pending().drop_first(),
            },
    ;
}

/// Makes an empty index of the given kind. The index lives in memory only, so
/// the directory is not read.
pub fn new_indexer(index_type: IndexType, _dir_path: std::path::PathBuf) -> (r: SkipList)
    ensures
        r.entries().dom() == Set::<Seq<u8>>::empty(),
{
    match index_type {
        IndexType::SkipList => SkipList::new(),
    }
}

} // verus!
