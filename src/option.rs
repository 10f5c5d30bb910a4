use vstd::prelude::*;

verus! {

/// The kinds of in-memory index the store can keep.
#[derive(Clone, Copy, Debug, PartialEq, Eq, Structural)]
pub enum IndexType {
    SkipList,
}

/// How an index iterator walks: only keys that start with `prefix` (all keys
/// when it is empty), in descending order when `reverse` is set.
pub struct IteratorOptions {
    pub prefix: Vec<u8>,
    pub reverse: bool,
}

impl Default for IteratorOptions {
    fn default() -> (r: Self)
        ensures
            r.prefix@ == Seq::<u8>::empty(),
            !r.reverse,
    {
        IteratorOptions { prefix: Vec::new(), reverse: false }
    }
}

/// Limits of a write batch.
pub struct WriteBatchOptions {
    /// The most records one batch may hold.
    pub max_batch_num: usize,
    /// Whether committing a batch syncs the active segment.
    pub sync_writes: bool,
}

impl Default for WriteBatchOptions {
    fn default() -> (r: Self)
        ensures
            r.max_batch_num == 10000,
            r.sync_writes,
    {
        WriteBatchOptions { max_batch_num: 10000, sync_writes: true }
    }
}

/// The file back-ends a segment can be read through.
#[derive(Clone, Copy, Debug, PartialEq, Eq, Structural)]
pub enum IOType {
    /// Positioned reads and appending writes on the file.
    StandardFIO,
    /// A read-only memory map of the file.
    MemoryMap,
}

} // verus!
