//! The decisions of the engine's write and read paths: when the active
//! segment is sealed and a new one opened, when it is synced, which segments a
//! directory may hold, and what a read record yields. The engine carries out
//! the file work that these decisions ask for.
use vstd::prelude::*;

use crate::data::log_record::{LogRecordType, ReadLogRecord};
use crate::error::{Errors, Result};

verus! {

/// The settings that decide rotation and syncing.
pub struct WriteConfig {
    /// The size that an append may not take the active segment past.
    pub data_file_size: u64,
    /// Sync after every append.
    pub sync_writes: bool,
    /// Sync once this many bytes were appended since the last sync (0: never).
    pub bytes_per_sync: u64,
}

/// The active segment as the write path tracks it.
pub struct WriteState {
    pub active_file_id: u32,
    /// Where the next record goes: the segment's size.
    pub write_off: u64,
    /// Bytes appended to the active segment since it was last synced.
    pub unsynced: u64,
}

/// What one append asks of the files.
#[derive(Clone, Copy, Debug, PartialEq, Eq, Structural)]
pub struct AppendPlan {
    /// Sync and seal the active segment, then open segment `file_id` as the
    /// new active one, before appending.
    pub rotate: bool,
    /// The segment that receives the record.
    pub file_id: u32,
    /// The offset of the record in that segment.
    pub offset: u64,
    /// Sync the segment after the append.
    pub sync: bool,
}

/// The bytes appended since the last sync, once `len` more are appended.
pub open spec fn unsynced_after(s: WriteState, len: u64, rotate: bool) -> int {
    (if rotate {
        0
    } else {
        s.unsynced as int
    }) + len
}

impl WriteState {
    /// The state of a segment opened with `write_off` bytes in it.
    pub fn new(active_file_id: u32, write_off: u64) -> (r: Self)
        ensures
            r.active_file_id == active_file_id,
            r.write_off == write_off,
            r.unsynced == 0,
    {
        WriteState { active_file_id, write_off, unsynced: 0 }
    }

    /// Plans the append of a record of `len` bytes and moves the state past
    /// it. The active segment is sealed when the record would take it past
    /// `data_file_size`; the new segment takes the next id.
    pub fn plan_append(&mut self, len: u64, cfg: &WriteConfig) -> (r: AppendPlan)
        requires
            old(self).active_file_id < u32::MAX,
            old(self).write_off + len <= u64::MAX,
            old(self).unsynced + len <= u64::MAX,
        ensures
            r.rotate == (old(self).write_off + len > cfg.data_file_size),
            r.file_id == (if r.rotate {
                old(self).active_file_id + 1
            } else {
                old(self).active_file_id as int
            }),
            r.offset == (if r.rotate {
                0
            } else {
                old(self).write_off
            }),
            r.sync == (cfg.sync_writes || (cfg.bytes_per_sync > 0 && unsynced_after(
                *old(self),
                len,
                r.rotate,
            ) >= cfg.bytes_per_sync)),
            final(self).active_file_id == r.file_id,
            final(self).write_off == r.offset + len,
            final(self).unsynced == (if r.sync {
                0
            } else {
                unsynced_after(*old(self), len, r.rotate)
            }),
    {
        let rotate = self.write_off + len > cfg.data_file_size;
        if rotate {
            self.active_file_id = self.active_file_id + 1;
            self.write_off = 0;
            self.unsynced = 0;
        }
        let offset = self.write_off;
        self.write_off = offset + len;
        let unsynced = self.unsynced + len;
        let sync = cfg.sync_writes || (cfg.bytes_per_sync > 0 && unsynced >= cfg.bytes_per_sync);
        self.unsynced = if sync {
            0
        } else {
            unsynced
        };
        AppendPlan { rotate, file_id: self.active_file_id, offset, sync }
    }
}

/// Keys may not be empty.
pub fn check_key(key: &[u8]) -> (r: Result<()>)
    ensures
        r is Err <==> key@.len() == 0,
        r is Err ==> r == Err::<(), Errors>(Errors::KeyIsEmpty),
{
    if key.len() == 0 {
        Err(Errors::KeyIsEmpty)
    } else {
        Ok(())
    }
}

/// The value that a read of a key's latest record yields: a tombstone or a
/// batch marker means the key has no value.
pub fn read_value(read: ReadLogRecord) -> (r: Result<Vec<u8>>)
    ensures
        read.record.rec_type == LogRecordType::NORMAL ==> (r matches Ok(v) && v@
            == read.record.value@),
        read.record.rec_type != LogRecordType::NORMAL ==> r == Err::<Vec<u8>, Errors>(
            Errors::KeyNotFound,
        ),
{
    match read.record.rec_type {
        LogRecordType::NORMAL => Ok(read.record.value),
        _ => Err(Errors::KeyNotFound),
    }
}

/// The segment ids found in a directory are well formed: each lies in
/// `1..=n` for `n` ids, and none repeats, so together they are `1..=n`.
pub open spec fn ids_contiguous(ids: Seq<u32>) -> bool {
    &&& forall|i: int| 0 <= i < ids.len() ==> 1 <= #[trigger] ids[i] <= ids.len()
    &&& forall|i: int, j: int| 0 <= i < j < ids.len() ==> #[trigger] ids[i] != #[trigger] ids[j]
}

/// Puts the segment ids found in a directory in ascending order, the order
/// in which recovery replays them; the last is the active segment. Ids that
/// are not `1..=n` for some `n` mean a corrupted directory.
pub fn order_file_ids(ids: &Vec<u32>) -> (r: Result<Vec<u32>>)
    requires
        ids@.len() < u32::MAX,
    ensures
        r is Ok <==> ids_contiguous(ids@),
        r matches Ok(sorted) ==> sorted@.len() == ids@.len() && forall|i: int|
            0 <= i < sorted@.len() ==> #[trigger] sorted@[i] == i + 1,
        r is Err ==> r == Err::<Vec<u32>, Errors>(Errors::DataDirectoryCorrupted),
{
    let n = ids.len();
    let mut seen: Vec<bool> = Vec::with_capacity(n);
    let mut k: usize = 0;
    while k < n
        invariant
            n == ids@.len(),
            k <= n,
            seen@.len() == k,
            forall|j: int| 0 <= j < k ==> !#[trigger] seen@[j],
        decreases n - k,
    {
        seen.push(false);
        k = k + 1;
    }
    let mut i: usize = 0;
    while i < n
        invariant
            n == ids@.len(),
            n < u32::MAX,
            i <= n,
            seen@.len() == n,
            forall|a: int| 0 <= a < i ==> 1 <= #[trigger] ids@[a] <= n,
            forall|a: int, b: int| 0 <= a < b < i ==> #[trigger] ids@[a] != #[trigger] ids@[b],
            forall|v: int|
                0 <= v < n ==> (#[trigger] seen@[v] <==> exists|a: int|
                    0 <= a < i && ids@[a] == v + 1),
        decreases n - i,
    {
        let id = ids[i];
        if id == 0 || id as usize > n {
            return Err(Errors::DataDirectoryCorrupted);
        }
        let slot = (id - 1) as usize;
        if seen[slot] {
            proof {
                let a = choose|a: int| 0 <= a < i && ids@[a] == slot + 1;
                assert(ids@[a] == ids@[i as int]);
            }
            return Err(Errors::DataDirectoryCorrupted);
        }
        seen.set(slot, true);
        proof {
            assert forall|v: int| 0 <= v < n implies (#[trigger] seen@[v] <==> exists|a: int|
                0 <= a < i + 1 && ids@[a] == v + 1) by {
                if v == slot {
                    assert(ids@[i as int] == v + 1);
                } else if seen@[v] {
                    let a = choose|a: int| 0 <= a < i && ids@[a] == v + 1;
                    assert(0 <= a < i + 1 && ids@[a] == v + 1);
                }
            }
        }
        i = i + 1;
    }
    let mut sorted: Vec<u32> = Vec::with_capacity(n);
    let mut id: u32 = 1;
    while (id as usize) <= n
        invariant
            n == ids@.len(),
            n < u32::MAX,
            1 <= id <= n + 1,
            sorted@.len() == id - 1,
            forall|j: int| 0 <= j < sorted@.len() ==> #[trigger] sorted@[j] == j + 1,
        decreases n + 1 - id,
    {
        sorted.push(id);
        id = id + 1;
    }
    Ok(sorted)
}

} // verus!
