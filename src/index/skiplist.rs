//! An index kept in crossbeam's concurrent skip map.
use vstd::prelude::*;

use crossbeam_skiplist::SkipMap;

use super::keys::{compare_keys, has_prefix, in_order, lemma_lex_transitive};
use crate::data::varint::starts_with;
use super::{is_snapshot, lists_keys, lookup, walk_from, Index, IndexIterator};
use crate::data::log_record::LogRecordPos;
use crate::error::Result;
use crate::option::IteratorOptions;

verus! {

#[verifier::external_type_specification]
#[verifier::external_body]
#[verifier::reject_recursive_types(K)]
#[verifier::reject_recursive_types(V)]
pub struct ExSkipMap<K, V>(SkipMap<K, V>);

/// What a skip map holds, keyed by the bytes of each key.
pub uninterp spec fn skipmap_entries(m: SkipMap<Vec<u8>, LogRecordPos>) -> Map<
    Seq<u8>,
    LogRecordPos,
>;

/// Relies on crossbeam_skiplist::SkipMap::new: a new map is empty.
#[verifier::external_body]
fn new_map() -> (r: SkipMap<Vec<u8>, LogRecordPos>)
    ensures
        skipmap_entries(r).dom() == Set::<Seq<u8>>::empty(),
{
    SkipMap::new()
}

/// Relies on crossbeam_skiplist::SkipMap::get: the entry under `key`, if any.
#[verifier::external_body]
fn map_get(m: &SkipMap<Vec<u8>, LogRecordPos>, key: &Vec<u8>) -> (r: Option<LogRecordPos>)
    ensures
        r == lookup(skipmap_entries(*m), key@),
{
    m.get(key).map(|e| *e.value())
}

/// Relies on crossbeam_skiplist::SkipMap::insert: the entry replaces any
/// entry that the key had.
#[verifier::external_body]
fn map_insert(m: &mut SkipMap<Vec<u8>, LogRecordPos>, key: Vec<u8>, pos: LogRecordPos)
    ensures
        skipmap_entries(*final(m)) == skipmap_entries(*old(m)).insert(key@, pos),
{
    m.insert(key, pos);
}

/// Relies on crossbeam_skiplist::SkipMap::remove: takes out the entry under
/// `key` and hands it back.
#[verifier::external_body]
fn map_remove(m: &mut SkipMap<Vec<u8>, LogRecordPos>, key: &Vec<u8>) -> (r: Option<
    LogRecordPos,
>)
    ensures
        skipmap_entries(*final(m)) == skipmap_entries(*old(m)).remove(key@),
        r == lookup(skipmap_entries(*old(m)), key@),
{
    m.remove(key).map(|e| *e.value())
}

/// Relies on crossbeam_skiplist::SkipMap::iter: every entry once, in
/// ascending key order (`Vec<u8>` orders lexicographically).
#[verifier::external_body]
fn map_entries(m: &SkipMap<Vec<u8>, LogRecordPos>) -> (r: Vec<(Vec<u8>, LogRecordPos)>)
    ensures
        is_snapshot(skipmap_entries(*m), r@, false),
{
    m.iter().map(|e| (e.key().clone(), *e.value())).collect()
}

/// The index kept in a skip map.
pub struct SkipList {
    map: SkipMap<Vec<u8>, LogRecordPos>,
}

impl SkipList {
    pub fn new() -> (r: Self)
        ensures
            r.entries().dom() == Set::<Seq<u8>>::empty(),
    {
        SkipList { map: new_map() }
    }
}

/// The entries of `v` in the opposite order.
fn reversed(v: Vec<(Vec<u8>, LogRecordPos)>) -> (r: Vec<(Vec<u8>, LogRecordPos)>)
    ensures
        r@.len() == v@.len(),
        forall|i: int| 0 <= i < v@.len() ==> #[trigger] r@[i] == v@[v@.len() - 1 - i],
{
    let ghost orig = v@;
    let mut src = v;
    let mut out: Vec<(Vec<u8>, LogRecordPos)> = Vec::with_capacity(src.len());
    while src.len() > 0
        invariant
            src@ == orig.subrange(0, src@.len() as int),
            out@.len() + src@.len() == orig.len(),
            forall|i: int| 0 <= i < out@.len() ==> #[trigger] out@[i] == orig[orig.len() - 1 - i],
        decreases src@.len(),
    {
        let e = src.pop().unwrap();
        out.push(e);
    }
    out
}

impl Index for SkipList {
    closed spec fn entries(&self) -> Map<Seq<u8>, LogRecordPos> {
        skipmap_entries(self.map)
    }

    fn put(&mut self, key: Vec<u8>, pos: LogRecordPos) -> (r: Option<LogRecordPos>) {
        let result = map_get(&self.map, &key);
        map_insert(&mut self.map, key, pos);
        result
    }

    fn get(&self, key: Vec<u8>) -> (r: Option<LogRecordPos>) {
        map_get(&self.map, &key)
    }

    fn delete(&mut self, key: Vec<u8>) -> (r: Option<LogRecordPos>) {
        map_remove(&mut self.map, &key)
    }

    fn list_keys(&self) -> (r: Result<Vec<Vec<u8>>>) {
        let items = map_entries(&self.map);
        let mut keys: Vec<Vec<u8>> = Vec::with_capacity(items.len());
        let mut i: usize = 0;
        while i < items.len()
            invariant
                i <= items@.len(),
                keys@.len() == i,
                forall|j: int| 0 <= j < i ==> #[trigger] keys@[j]@ == items@[j].0@,
            decreases items@.len() - i,
        {
            let k = items[i].0.clone();
            assert(k@ =~= items@[i as int].0@);
            keys.push(k);
            i = i + 1;
        }
        proof {
            let m = self.entries();
            assert forall|a: int, b: int| 0 <= a < b < keys@.len() implies super::keys::lex_lt(
                #[trigger] keys@[a]@,
                #[trigger] keys@[b]@,
            ) by {
                assert(in_order(items@[a].0@, items@[b].0@, false));
            }
            assert forall|a: int| 0 <= a < keys@.len() implies m.contains_key(#[trigger] keys@[a]@) by {
                assert(m.contains_key(items@[a].0@));
            }
            assert forall|k: Seq<u8>| #[trigger] m.contains_key(k) implies exists|a: int|
                0 <= a < keys@.len() && keys@[a]@ == k by {
                let a = choose|a: int| 0 <= a < items@.len() && items@[a].0@ == k;
                assert(keys@[a]@ == k);
            }
        }
        Ok(keys)
    }

    fn iterator(&self, options: IteratorOptions) -> (r: SkipListIterator) {
        let items = map_entries(&self.map);
        let ghost m = self.entries();
        if options.reverse {
            let rev = reversed(items);
            proof {
                let n = items@.len();
                assert forall|i: int, j: int| 0 <= i < j < rev@.len() implies in_order(
                    #[trigger] rev@[i].0@,
                    #[trigger] rev@[j].0@,
                    true,
                ) by {
                    assert(rev@[i] == items@[n - 1 - i]);
                    assert(rev@[j] == items@[n - 1 - j]);
                    assert(in_order(items@[n - 1 - j].0@, items@[n - 1 - i].0@, false));
                }
                assert forall|i: int| 0 <= i < rev@.len() implies m.contains_key(
                    #[trigger] rev@[i].0@,
                ) && m[rev@[i].0@] == rev@[i].1 by {
                    assert(rev@[i] == items@[n - 1 - i]);
                }
                assert forall|k: Seq<u8>| #[trigger] m.contains_key(k) implies exists|i: int|
                    0 <= i < rev@.len() && rev@[i].0@ == k by {
                    let a = choose|a: int| 0 <= a < items@.len() && items@[a].0@ == k;
                    assert(rev@[n - 1 - a] == items@[a]);
                }
            }
            SkipListIterator { items: rev, curr_index: 0, options }
        } else {
            SkipListIterator { items, curr_index: 0, options }
        }
    }
}

/// A cursor over a copy of the index's entries, taken when it was made and
/// kept in the walk's order.
pub struct SkipListIterator {
    pub items: Vec<(Vec<u8>, LogRecordPos)>,
    pub curr_index: usize,
    pub options: IteratorOptions,
}

/// `a` lies before `c` whenever `a` lies before `b` and `b` before `c`.
proof fn lemma_in_order_transitive(a: Seq<u8>, b: Seq<u8>, c: Seq<u8>, reverse: bool)
    requires
        in_order(a, b, reverse),
        in_order(b, c, reverse),
    ensures
        in_order(a, c, reverse),
{
    if reverse {
        lemma_lex_transitive(c, b, a);
    } else {
        lemma_lex_transitive(a, b, c);
    }
}

/// The walk from `i` is the matching entries of `[i, j)` followed by the walk
/// from `j`.
proof fn lemma_walk_split(items: Seq<(Vec<u8>, LogRecordPos)>, i: int, j: int, prefix: Seq<u8>) -> (a:
    Seq<(Seq<u8>, LogRecordPos)>)
    requires
        0 <= i <= j <= items.len(),
    ensures
        walk_from(items, i, prefix) == a + walk_from(items, j, prefix),
        forall|m: int|
            0 <= m < a.len() ==> exists|x: int|
                i <= x < j && #[trigger] a[m] == (items[x].0@, items[x].1),
    decreases j - i,
{
    if i == j {
        assert(Seq::<(Seq<u8>, LogRecordPos)>::empty() + walk_from(items, j, prefix) =~= walk_from(
            items,
            j,
            prefix,
        ));
        Seq::empty()
    } else {
        let rest = lemma_walk_split(items, i + 1, j, prefix);
        if starts_with(items[i].0@, prefix) {
            let a = seq![(items[i].0@, items[i].1)] + rest;
            assert(walk_from(items, i, prefix) =~= a + walk_from(items, j, prefix));
            assert forall|m: int| 0 <= m < a.len() implies exists|x: int|
                i <= x < j && #[trigger] a[m] == (items[x].0@, items[x].1) by {
                if m > 0 {
                    assert(a[m] == rest[m - 1]);
                }
            }
            a
        } else {
            rest
        }
    }
}

/// The walk from `i` picks matching entries of `items` at rising positions,
/// and every matching entry from `i` on.
proof fn lemma_walk_positions(items: Seq<(Vec<u8>, LogRecordPos)>, i: int, prefix: Seq<u8>) -> (idx:
    Seq<int>)
    requires
        0 <= i <= items.len(),
    ensures
        idx.len() == walk_from(items, i, prefix).len(),
        forall|m: int|
            0 <= m < idx.len() ==> i <= #[trigger] idx[m] < items.len() && walk_from(
                items,
                i,
                prefix,
            )[m] == (items[idx[m]].0@, items[idx[m]].1) && starts_with(
                items[idx[m]].0@,
                prefix,
            ),
        forall|a: int, b: int| 0 <= a < b < idx.len() ==> #[trigger] idx[a] < #[trigger] idx[b],
        forall|x: int|
            i <= x < items.len() && starts_with(#[trigger] items[x].0@, prefix) ==> exists|m: int|
                0 <= m < idx.len() && idx[m] == x,
    decreases items.len() - i,
{
    if i == items.len() {
        Seq::empty()
    } else {
        let rest = lemma_walk_positions(items, i + 1, prefix);
        if starts_with(items[i].0@, prefix) {
            let idx = seq![i] + rest;
            let w = walk_from(items, i, prefix);
            assert forall|m: int| 0 <= m < idx.len() implies i <= #[trigger] idx[m] < items.len()
                && w[m] == (items[idx[m]].0@, items[idx[m]].1) && starts_with(
                items[idx[m]].0@,
                prefix,
            ) by {
                if m > 0 {
                    assert(idx[m] == rest[m - 1]);
                }
            }
            assert forall|a: int, b: int| 0 <= a < b < idx.len() implies #[trigger] idx[a]
                < #[trigger] idx[b] by {
                if a > 0 {
                    assert(idx[a] == rest[a - 1]);
                }
                assert(idx[b] == rest[b - 1]);
            }
            assert forall|x: int| i <= x < items.len() && starts_with(
                #[trigger] items[x].0@,
                prefix,
            ) implies exists|m: int| 0 <= m < idx.len() && idx[m] == x by {
                if x == i {
                    assert(idx[0] == x);
                } else {
                    let m = choose|m: int| 0 <= m < rest.len() && rest[m] == x;
                    assert(idx[m + 1] == x);
                }
            }
            idx
        } else {
            rest
        }
    }
}

/// A cursor made by `iterator` walks over every entry of the index whose key
/// starts with the prefix, each exactly once, in ascending key order, or in
/// descending order for a reverse walk, and over nothing else.
pub proof fn lemma_iterator_complete(m: Map<Seq<u8>, LogRecordPos>, it: SkipListIterator)
    requires
        is_snapshot(m, it.items@, it.options.reverse),
    ensures
        forall|k: Seq<u8>|
            m.contains_key(k) && starts_with(k, it.options.prefix@) <==> exists|i: int|
                0 <= i < it.walk().len() && #[trigger] it.walk()[i].0 == k,
        forall|i: int|
            0 <= i < it.walk().len() ==> m.contains_key(#[trigger] it.walk()[i].0) && m[it.walk()[i].0]
                == it.walk()[i].1,
        forall|i: int, j: int|
            0 <= i < j < it.walk().len() ==> in_order(
                #[trigger] it.walk()[i].0,
                #[trigger] it.walk()[j].0,
                it.options.reverse,
            ),
{
    let items = it.items@;
    let prefix = it.options.prefix@;
    let w = it.walk();
    let idx = lemma_walk_positions(items, 0, prefix);
    assert forall|k: Seq<u8>|
        m.contains_key(k) && starts_with(k, prefix) <==> exists|i: int|
            0 <= i < w.len() && #[trigger] w[i].0 == k by {
        if m.contains_key(k) && starts_with(k, prefix) {
            let x = choose|x: int| 0 <= x < items.len() && items[x].0@ == k;
            let mm = choose|mm: int| 0 <= mm < idx.len() && idx[mm] == x;
            assert(w[mm].0 == k);
        }
        if exists|i: int| 0 <= i < w.len() && #[trigger] w[i].0 == k {
            let i = choose|i: int| 0 <= i < w.len() && #[trigger] w[i].0 == k;
            assert(idx[i] >= 0);
            assert(m.contains_key(items[idx[i]].0@));
        }
    }
    assert forall|i: int| 0 <= i < w.len() implies m.contains_key(#[trigger] w[i].0) && m[w[i].0]
        == w[i].1 by {
        assert(idx[i] >= 0);
        assert(m.contains_key(items[idx[i]].0@));
    }
    assert forall|i: int, j: int| 0 <= i < j < w.len() implies in_order(
        #[trigger] w[i].0,
        #[trigger] w[j].0,
        it.options.reverse,
    ) by {
        assert(idx[i] < idx[j]);
        assert(in_order(items[idx[i]].0@, items[idx[j]].0@, it.options.reverse));
    }
}

/// From call `k` on, a run of `next` calls hands out what was pending before
/// call `k`.
proof fn lemma_drain_from(
    steps: Seq<SkipListIterator>,
    outs: Seq<(Seq<u8>, LogRecordPos)>,
    k: int,
)
    requires
        steps.len() == outs.len() + 1,
        0 <= k <= outs.len(),
        forall|i: int|
            0 <= i < outs.len() ==> (#[trigger] steps[i]).pending().len() > 0 && steps[i].pending()[0]
                == outs[i] && steps[i + 1].pending() == steps[i].pending().drop_first(),
        steps[outs.len() as int].pending().len() == 0,
    ensures
        outs.skip(k) == steps[k].pending(),
    decreases outs.len() - k,
{
    if k == outs.len() {
        assert(outs.skip(k) =~= steps[k].pending());
    } else {
        lemma_drain_from(steps, outs, k + 1);
        let p = steps[k].pending();
        assert(p =~= seq![p[0]] + p.drop_first());
        assert(outs.skip(k) =~= seq![outs[k]] + outs.skip(k + 1));
    }
}

/// Calling `next` until it returns `None` hands out every pending entry once,
/// in order: `steps[i]` is the cursor before call `i`, `outs[i]` the entry that
/// call handed out, and the cursor after the last entry has nothing pending,
/// so its call returns `None`. For a cursor fresh from `iterator`, what is
/// pending is the walk that `lemma_iterator_complete` describes.
pub proof fn lemma_drain(steps: Seq<SkipListIterator>, outs: Seq<(Seq<u8>, LogRecordPos)>)
    requires
        steps.len() == outs.len() + 1,
        forall|i: int|
            0 <= i < outs.len() ==> (#[trigger] steps[i]).pending().len() > 0 && steps[i].pending()[0]
                == outs[i] && steps[i + 1].pending() == steps[i].pending().drop_first(),
        steps[outs.len() as int].pending().len() == 0,
    ensures
        outs == steps[0].pending(),
        steps[0].curr_index == 0 ==> outs == steps[0].walk(),
{
    lemma_drain_from(steps, outs, 0);
    assert(outs.skip(0) =~= outs);
}

impl IndexIterator for SkipListIterator {
    open spec fn wf(&self) -> bool {
        &&& self.curr_index <= self.items@.len()
        &&& forall|i: int, j: int|
            0 <= i < j < self.items@.len() ==> in_order(
                #[trigger] self.items@[i].0@,
                #[trigger] self.items@[j].0@,
                self.options.reverse,
            )
    }

    open spec fn walk(&self) -> Seq<(Seq<u8>, LogRecordPos)> {
        walk_from(self.items@, 0, self.options.prefix@)
    }

    open spec fn pending(&self) -> Seq<(Seq<u8>, LogRecordPos)> {
        walk_from(self.items@, self.curr_index as int, self.options.prefix@)
    }

    open spec fn descending(&self) -> bool {
        self.options.reverse
    }

    fn rewind(&mut self) {
        self.curr_index = 0;
    }

    fn seek(&mut self, key: Vec<u8>) {
        let mut lo: usize = 0;
        let mut hi: usize = self.items.len();
        while lo < hi
            invariant
                self.wf(),
                self.items == old(self).items,
                self.options == old(self).options,
                lo <= hi <= self.items@.len(),
                forall|j: int|
                    0 <= j < lo ==> in_order(#[trigger] self.items@[j].0@, key@, self.options.reverse),
                forall|j: int|
                    hi <= j < self.items@.len() ==> !in_order(
                        #[trigger] self.items@[j].0@,
                        key@,
                        self.options.reverse,
                    ),
            decreases hi - lo,
        {
            let mid = lo + (hi - lo) / 2;
            let c = compare_keys(self.items[mid].0.as_slice(), key.as_slice());
            let before = if self.options.reverse {
                c > 0
            } else {
                c < 0
            };
            let ghost km = self.items@[mid as int].0@;
            if before {
                assert forall|j: int| 0 <= j < mid + 1 implies in_order(
                    #[trigger] self.items@[j].0@,
                    key@,
                    self.options.reverse,
                ) by {
                    if j < mid {
                        lemma_in_order_transitive(
                            self.items@[j].0@,
                            km,
                            key@,
                            self.options.reverse,
                        );
                    }
                }
                lo = mid + 1;
            } else {
                assert forall|j: int| mid <= j < self.items@.len() implies !in_order(
                    #[trigger] self.items@[j].0@,
                    key@,
                    self.options.reverse,
                ) by {
                    if j > mid && in_order(self.items@[j].0@, key@, self.options.reverse) {
                        lemma_in_order_transitive(
                            km,
                            self.items@[j].0@,
                            key@,
                            self.options.reverse,
                        );
                    }
                }
                hi = mid;
            }
        }
        self.curr_index = lo;
        proof {
            let items = self.items@;
            let prefix = self.options.prefix@;
            let len = items.len() as int;
            let a = lemma_walk_split(items, 0, lo as int, prefix);
            let b = lemma_walk_split(items, lo as int, len, prefix);
            assert(walk_from(items, len, prefix) =~= Seq::<(Seq<u8>, LogRecordPos)>::empty());
            assert(b =~= walk_from(items, lo as int, prefix));
            let w = walk_from(items, 0, prefix);
            let n = a.len() as int;
            assert(w.skip(n) =~= walk_from(items, lo as int, prefix));
            assert forall|i: int| 0 <= i < n implies in_order(
                #[trigger] w[i].0,
                key@,
                self.options.reverse,
            ) by {
                assert(w[i] == a[i]);
                let x = choose|x: int| 0 <= x < lo && a[i] == (items[x].0@, items[x].1);
            }
            assert forall|i: int| n <= i < w.len() implies !in_order(
                #[trigger] w[i].0,
                key@,
                self.options.reverse,
            ) by {
                assert(w[i] == b[i - n]);
                let x = choose|x: int| lo <= x < len && b[i - n] == (items[x].0@, items[x].1);
            }
            assert(old(self).walk() == w);
            assert(self.pending() == old(self).walk().skip(n));
            assert(0 <= n <= old(self).walk().len());
        }
    }

    fn next(&mut self) -> (r: Option<(Vec<u8>, LogRecordPos)>) {
        if self.curr_index >= self.items.len() {
            return None;
        }
        while self.curr_index < self.items.len()
            invariant
                self.items == old(self).items,
                self.options == old(self).options,
                self.curr_index <= self.items@.len(),
                walk_from(self.items@, self.curr_index as int, self.options.prefix@) == walk_from(
                    old(self).items@,
                    old(self).curr_index as int,
                    old(self).options.prefix@,
                ),
                old(self).wf() ==> self.wf(),
            decreases self.items@.len() - self.curr_index,
        {
            let i = self.curr_index;
            self.curr_index = i + 1;
            let matches = if self.options.prefix.len() == 0 {
                assert(self.items@[i as int].0@.subrange(0, 0) =~= self.options.prefix@);
                true
            } else {
                has_prefix(self.items[i].0.as_slice(), self.options.prefix.as_slice())
            };
            if matches {
                let k = self.items[i].0.clone();
                assert(k@ =~= self.items@[i as int].0@);
                let ghost w = walk_from(self.items@, i as int, self.options.prefix@);
                assert(w.drop_first() =~= walk_from(self.items@, i + 1, self.options.prefix@));
                return Some((k, self.items[i].1));
            }
        }
        None
    }
}

} // verus!
