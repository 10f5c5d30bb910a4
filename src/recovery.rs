//! How the log rebuilds the index: each record, in log order, either installs
//! its key's location or removes the key.
use vstd::prelude::*;

use crate::data::log_record::{
    decode_log_record, holds_record, lemma_record_unique, record_bytes, LogRecord, LogRecordPos, LogRecordType,
};
use crate::data::varint::starts_with;
use crate::index::{lookup, Index};

verus! {

/// One record of the log as the index sees it: its type, its key and where it
/// lies.
pub type LogEntry = (LogRecordType, Seq<u8>, LogRecordPos);

/// The index after one record: a value installs its location, a tombstone
/// removes the key, a batch marker changes nothing.
pub open spec fn apply(m: Map<Seq<u8>, LogRecordPos>, e: LogEntry) -> Map<Seq<u8>, LogRecordPos> {
    match e.0 {
        LogRecordType::NORMAL => m.insert(e.1, e.2),
        LogRecordType::DELETED => m.remove(e.1),
        LogRecordType::TXNFINISHED => m,
    }
}

/// The index after the records of `log`, in order.
pub open spec fn replay(m: Map<Seq<u8>, LogRecordPos>, log: Seq<LogEntry>) -> Map<
    Seq<u8>,
    LogRecordPos,
>
    decreases log.len(),
{
    if log.len() == 0 {
        m
    } else {
        apply(replay(m, log.drop_last()), log.last())
    }
}

/// Brings the index up to date with one record read from the log.
pub fn apply_record<I: Index>(index: &mut I, record: &LogRecord, pos: LogRecordPos)
    ensures
        final(index).entries() == apply(old(index).entries(), (record.rec_type, record.key@, pos)),
{
    match record.rec_type {
        LogRecordType::NORMAL => {
            let key = record.key.clone();
            assert(key@ =~= record.key@);
            index.put(key, pos);
        },
        LogRecordType::DELETED => {
            let key = record.key.clone();
            assert(key@ =~= record.key@);
            index.delete(key);
        },
        LogRecordType::TXNFINISHED => {},
    }
}

/// A record as written: its type, key and value.
pub type RecordData = (LogRecordType, Seq<u8>, Seq<u8>);

/// The encoding of one record.
pub open spec fn record_encoding(rec: RecordData) -> Seq<u8> {
    record_bytes(rec.0.tag(), rec.1, rec.2)
}

/// The bytes of a segment that holds `recs`, one after the other.
pub open spec fn encodings(recs: Seq<RecordData>) -> Seq<u8>
    decreases recs.len(),
{
    if recs.len() == 0 {
        Seq::empty()
    } else {
        encodings(recs.drop_last()) + record_encoding(recs.last())
    }
}

/// What the index learns from the records `recs` of segment `file_id`: each
/// record's type and key, and where it lies.
pub open spec fn segment_entries(file_id: u32, recs: Seq<RecordData>) -> Seq<LogEntry> {
    Seq::new(
        recs.len(),
        |i: int|
            (
                recs[i].0,
                recs[i].1,
                LogRecordPos {
                    file_id,
                    offset: encodings(recs.take(i)).len() as u64,
                    size: record_encoding(recs[i]).len() as u32,
                },
            ),
    )
}

/// A record that a location can point at: small enough to be held in
/// memory, and its encoding no longer than a location's size field can say.
pub open spec fn locatable(rec: RecordData) -> bool {
    rec.1.len() + rec.2.len() + 25 <= isize::MAX && record_encoding(rec).len() <= u32::MAX
}

/// `data` holds no record that a scan could read next: it is empty, or it
/// does not begin with the encoding of a locatable record.
pub open spec fn scan_stops(data: Seq<u8>) -> bool {
    forall|rec: RecordData| #[trigger] starts_with(data, record_encoding(rec)) ==> !locatable(rec)
}

/// Replays the records at the start of a segment's bytes into the index and
/// returns where they end. The scan stops at the first place that does not
/// hold a whole, valid record: the end of the bytes, a record cut short by a
/// crash, or a corrupt one. The caller truncates the active segment there.
pub fn load_segment<I: Index>(index: &mut I, file_id: u32, data: &[u8]) -> (r: usize)
    requires
        data@.len() <= u64::MAX,
    ensures
        r <= data@.len(),
        exists|recs: Seq<RecordData>|
            {
                &&& encodings(recs) == data@.subrange(0, r as int)
                &&& forall|i: int| 0 <= i < recs.len() ==> locatable(#[trigger] recs[i])
                &&& final(index).entries() == replay(
                    old(index).entries(),
                    segment_entries(file_id, recs),
                )
            },
        scan_stops(data@.subrange(r as int, data@.len() as int)),
{
    let mut off: usize = 0;
    let mut done = false;
    let ghost mut recs: Seq<RecordData> = Seq::empty();
    assert(data@.subrange(0, 0) =~= encodings(recs));
    assert(segment_entries(file_id, recs) =~= Seq::<LogEntry>::empty());
    while !done
        invariant
            off <= data@.len(),
            data@.len() <= u64::MAX,
            encodings(recs) == data@.subrange(0, off as int),
            forall|i: int| 0 <= i < recs.len() ==> locatable(#[trigger] recs[i]),
            index.entries() == replay(old(index).entries(), segment_entries(file_id, recs)),
            done ==> scan_stops(data@.subrange(off as int, data@.len() as int)),
        decreases data@.len() - off + (if done { 0int } else { 1int }),
    {
        let (_, rest) = data.split_at(off);
        match decode_log_record(rest) {
            Ok(rr) => {
                if rr.size > 0xffff_ffff {
                    proof {
                        assert forall|rec: RecordData|
                            #[trigger] starts_with(rest@, record_encoding(rec)) implies rec.1.len()
                            + rec.2.len() + 25 > isize::MAX || record_encoding(rec).len()
                            > u32::MAX by {
                            if rec.1.len() + rec.2.len() + 25 <= isize::MAX {
                                assert(holds_record(rest@, rec.0, rec.1, rec.2));
                            }
                        }
                    }
                    done = true;
                } else {
                    let pos = LogRecordPos {
                        file_id,
                        offset: off as u64,
                        size: rr.size as u32,
                    };
                    apply_record(index, &rr.record, pos);
                    let ghost rec: RecordData = (
                        rr.record.rec_type,
                        rr.record.key@,
                        rr.record.value@,
                    );
                    proof {
                        let old_recs = recs;
                        recs = recs.push(rec);
                        assert(recs.drop_last() =~= old_recs);
                        assert(recs.take(old_recs.len() as int) =~= old_recs);
                        assert(rest@.subrange(0, rr.size as int) == record_encoding(rec));
                        assert(data@.subrange(0, off + rr.size) =~= data@.subrange(0, off as int)
                            + rest@.subrange(0, rr.size as int));
                        assert forall|i: int| 0 <= i < old_recs.len() implies recs.take(i)
                            =~= old_recs.take(i) by {}
                        assert(segment_entries(file_id, recs) =~= segment_entries(
                            file_id,
                            old_recs,
                        ).push((rec.0, rec.1, pos)));
                        assert(segment_entries(file_id, recs).drop_last() =~= segment_entries(
                            file_id,
                            old_recs,
                        ));
                    }
                    assert(rr.size <= rest@.len());
                    let len = data.len();
                    assert(off + rr.size <= len);
                    off = off + rr.size;
                    if off == data.len() {
                        proof {
                            assert forall|rec: RecordData|
                                #[trigger] starts_with(
                                    data@.subrange(off as int, data@.len() as int),
                                    record_encoding(rec),
                                ) implies false by {
                                assert(record_encoding(rec).len() > 0);
                            }
                        }
                        done = true;
                    }
                }
            },
            Err(_) => {
                proof {
                    assert forall|rec: RecordData|
                        #[trigger] starts_with(rest@, record_encoding(rec)) implies rec.1.len()
                        + rec.2.len() + 25 > isize::MAX || record_encoding(rec).len()
                        > u32::MAX by {
                        if rec.1.len() + rec.2.len() + 25 <= isize::MAX {
                            assert(holds_record(rest@, rec.0, rec.1, rec.2));
                        }
                    }
                }
                done = true;
            },
        }
    }
    off
}

/// The bytes of records laid one after the other: the first record, then the
/// rest.
proof fn lemma_encodings_front(x: RecordData, rest: Seq<RecordData>)
    ensures
        encodings(seq![x] + rest) == record_encoding(x) + encodings(rest),
    decreases rest.len(),
{
    let s = seq![x] + rest;
    if rest.len() == 0 {
        assert(s.drop_last() =~= Seq::<RecordData>::empty());
        assert(s.last() == x);
        assert(encodings(s.drop_last()) == Seq::<u8>::empty());
        assert(encodings(rest) == Seq::<u8>::empty());
        assert(encodings(s) =~= record_encoding(x) + encodings(rest));
    } else {
        assert(s.drop_last() =~= seq![x] + rest.drop_last());
        assert(s.last() == rest.last());
        lemma_encodings_front(x, rest.drop_last());
        assert(encodings(s) == encodings(s.drop_last()) + record_encoding(s.last()));
        assert(encodings(rest) == encodings(rest.drop_last()) + record_encoding(rest.last()));
        assert(encodings(s.drop_last()) == record_encoding(x) + encodings(rest.drop_last()));
        assert(encodings(s) =~= record_encoding(x) + encodings(rest));
    }
}

/// The bytes of the first `j` records, then those of the rest.
proof fn lemma_encodings_split(recs: Seq<RecordData>, j: int)
    requires
        0 <= j <= recs.len(),
    ensures
        encodings(recs) == encodings(recs.take(j)) + encodings(recs.skip(j)),
    decreases recs.len(),
{
    if j == recs.len() {
        assert(recs.take(j) =~= recs);
        assert(recs.skip(j) =~= Seq::<RecordData>::empty());
        assert(encodings(recs) =~= encodings(recs.take(j)) + encodings(recs.skip(j)));
    } else {
        let d = recs.drop_last();
        lemma_encodings_split(d, j);
        assert(d.take(j) =~= recs.take(j));
        assert(recs.skip(j).drop_last() =~= d.skip(j));
        assert(recs.skip(j).last() == recs.last());
        assert(encodings(recs) =~= encodings(recs.take(j)) + encodings(recs.skip(j)));
    }
}

/// Where the records from `j` on begin, record `j` begins.
proof fn lemma_encodings_at(recs: Seq<RecordData>, j: int)
    requires
        0 <= j < recs.len(),
    ensures
        encodings(recs.skip(j)) == record_encoding(recs[j]) + encodings(recs.skip(j + 1)),
        encodings(recs.take(j + 1)) == encodings(recs.take(j)) + record_encoding(recs[j]),
{
    assert(recs.skip(j) =~= seq![recs[j]] + recs.skip(j + 1));
    lemma_encodings_front(recs[j], recs.skip(j + 1));
    assert(recs.take(j + 1).drop_last() =~= recs.take(j));
}

/// A run of locatable records whose bytes begin the bytes of `recs` is the
/// first records of `recs`.
proof fn lemma_parse_prefix(recs: Seq<RecordData>, found: Seq<RecordData>)
    requires
        forall|i: int| 0 <= i < found.len() ==> locatable(#[trigger] found[i]),
        forall|i: int| 0 <= i < recs.len() ==> locatable(#[trigger] recs[i]),
        starts_with(encodings(recs), encodings(found)),
    ensures
        found.len() <= recs.len(),
        found == recs.take(found.len() as int),
    decreases found.len(),
{
    if found.len() == 0 {
        assert(found =~= recs.take(0));
    } else {
        let f0 = found.drop_last();
        let fl = found.last();
        let e = encodings(recs);
        let ef = encodings(found);
        assert(ef == encodings(f0) + record_encoding(fl));
        assert(starts_with(e, encodings(f0))) by {
            assert(e.subrange(0, encodings(f0).len() as int) =~= ef.subrange(
                0,
                encodings(f0).len() as int,
            ));
            assert(ef.subrange(0, encodings(f0).len() as int) =~= encodings(f0));
        }
        assert forall|i: int| 0 <= i < f0.len() implies locatable(#[trigger] f0[i]) by {
            assert(f0[i] == found[i]);
        }
        lemma_parse_prefix(recs, f0);
        let j = f0.len() as int;
        let lj = encodings(recs.take(j)).len() as int;
        lemma_encodings_split(recs, j);
        if j == recs.len() {
            assert(recs.skip(j) =~= Seq::<RecordData>::empty());
            assert(e.len() == lj);
            assert(false);
        }
        lemma_encodings_at(recs, j);
        let y = e.subrange(lj, e.len() as int);
        assert(y =~= encodings(recs.skip(j)));
        let rj = recs[j];
        assert(starts_with(y, record_encoding(rj))) by {
            assert(y.subrange(0, record_encoding(rj).len() as int) =~= record_encoding(rj));
        }
        assert(starts_with(y, record_encoding(fl))) by {
            assert forall|i: int| 0 <= i < record_encoding(fl).len() implies y[i] == record_encoding(
                fl,
            )[i] by {
                assert(e.subrange(0, ef.len() as int)[lj + i] == ef[lj + i]);
            }
            assert(y.subrange(0, record_encoding(fl).len() as int) =~= record_encoding(fl));
        }
        assert(locatable(rj));
        assert(locatable(fl) && found[found.len() - 1] == fl);
        lemma_record_unique(y, rj.0, rj.1, rj.2, fl.0, fl.1, fl.2);
        assert(found =~= recs.take(j + 1));
    }
}

/// A crash that cuts a segment holding `recs` at byte `c` loses just the
/// records that do not lie wholly before the cut. Whatever run of records a
/// scan of the cut bytes accepts, ending at `r` where no locatable record
/// begins, is the first records of `recs`, and the next record of `recs`, if
/// there is one, runs past the cut. So the index rebuilt from the cut segment
/// holds, for each key, the latest of the records that survived.
pub proof fn lemma_crash_cut(recs: Seq<RecordData>, c: int, found: Seq<RecordData>, r: int)
    requires
        forall|i: int| 0 <= i < recs.len() ==> locatable(#[trigger] recs[i]),
        forall|i: int| 0 <= i < found.len() ==> locatable(#[trigger] found[i]),
        0 <= r <= c <= encodings(recs).len(),
        encodings(found) == encodings(recs).subrange(0, r),
        scan_stops(encodings(recs).subrange(r, c)),
    ensures
        found.len() <= recs.len(),
        found == recs.take(found.len() as int),
        found.len() < recs.len() ==> encodings(recs.take(found.len() + 1 as int)).len() > c,
{
    let e = encodings(recs);
    assert(starts_with(e, encodings(found))) by {
        assert(e.subrange(0, encodings(found).len() as int) == encodings(found));
    }
    lemma_parse_prefix(recs, found);
    let j = found.len() as int;
    if j < recs.len() && encodings(recs.take(j + 1)).len() <= c {
        lemma_encodings_at(recs, j);
        let rj = recs[j];
        let n = record_encoding(rj).len() as int;
        assert(encodings(recs.take(j)).len() == r);
        let cut = e.subrange(r, c);
        lemma_encodings_split(recs, j + 1);
        assert(starts_with(cut, record_encoding(rj))) by {
            assert forall|i: int| 0 <= i < n implies cut[i] == record_encoding(rj)[i] by {
                assert(e[r + i] == encodings(recs.take(j + 1))[r + i]);
            }
            assert(cut.subrange(0, n) =~= record_encoding(rj));
        }
        assert(locatable(rj));
    }
}

/// Records of other keys leave what the index holds for `key` as it was.
pub proof fn lemma_other_keys_keep(m: Map<Seq<u8>, LogRecordPos>, log: Seq<LogEntry>, key: Seq<u8>)
    requires
        forall|j: int| 0 <= j < log.len() ==> (#[trigger] log[j]).1 != key,
    ensures
        lookup(replay(m, log), key) == lookup(m, key),
    decreases log.len(),
{
    if log.len() > 0 {
        assert(log.last() == log[log.len() - 1]);
        lemma_other_keys_keep(m, log.drop_last(), key);
    }
}

/// A key whose latest value record lies at `log[i]`, with no later value or
/// tombstone for it, maps to that record's location.
pub proof fn lemma_latest_value_wins(m: Map<Seq<u8>, LogRecordPos>, log: Seq<LogEntry>, i: int)
    requires
        0 <= i < log.len(),
        log[i].0 == LogRecordType::NORMAL,
        forall|j: int|
            i < j < log.len() && (#[trigger] log[j]).1 == log[i].1 ==> log[j].0
                == LogRecordType::TXNFINISHED,
    ensures
        lookup(replay(m, log), log[i].1) == Some(log[i].2),
    decreases log.len(),
{
    if i < log.len() - 1 {
        assert(log.drop_last()[i] == log[i]);
        lemma_latest_value_wins(m, log.drop_last(), i);
        assert(log.last() == log[log.len() - 1]);
    } else {
        assert(log.last() == log[i]);
    }
}

/// A key whose latest record lies at `log[i]` and is a tombstone, with no
/// later value or tombstone for it, is not in the index.
pub proof fn lemma_latest_tombstone_wins(m: Map<Seq<u8>, LogRecordPos>, log: Seq<LogEntry>, i: int)
    requires
        0 <= i < log.len(),
        log[i].0 == LogRecordType::DELETED,
        forall|j: int|
            i < j < log.len() && (#[trigger] log[j]).1 == log[i].1 ==> log[j].0
                == LogRecordType::TXNFINISHED,
    ensures
        lookup(replay(m, log), log[i].1) == None::<LogRecordPos>,
    decreases log.len(),
{
    if i < log.len() - 1 {
        assert(log.drop_last()[i] == log[i]);
        lemma_latest_tombstone_wins(m, log.drop_last(), i);
        assert(log.last() == log[log.len() - 1]);
    } else {
        assert(log.last() == log[i]);
    }
}

/// A put hands back the location that the previous put of the same key
/// installed, whatever was done to other keys in between.
pub proof fn lemma_put_returns_previous(
    m: Map<Seq<u8>, LogRecordPos>,
    key: Seq<u8>,
    first: LogRecordPos,
    between: Seq<LogEntry>,
)
    requires
        forall|j: int| 0 <= j < between.len() ==> (#[trigger] between[j]).1 != key,
    ensures
        lookup(replay(m.insert(key, first), between), key) == Some(first),
{
    lemma_other_keys_keep(m.insert(key, first), between, key);
}

} // verus!
