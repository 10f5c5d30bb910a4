//! What the file back-ends share: the calls a segment makes on its file, and
//! the bounds check of a read from a memory map.
use vstd::prelude::*;

use crate::error::{Errors, Result};

verus! {

/// A byte-addressed file: positioned reads, appending writes, sync and size.
pub trait IOManager {
    /// Reads into `buf` from `offset`; returns the number of bytes read.
    fn read(&self, buf: &mut [u8], offset: u64) -> Result<usize>;

    /// Appends `buf` at the end of the file; returns the number of bytes written.
    fn write(&self, buf: &[u8]) -> Result<usize>;

    /// Flushes what was written to stable storage.
    fn sync(&self) -> Result<()>;

    /// The file's length in bytes.
    fn size(&self) -> u64;
}

/// The range of a mapped file of `map_len` bytes that a read of `want` bytes
/// at `offset` covers; a read that runs past the end is the end of the file.
pub fn read_window(map_len: usize, offset: u64, want: usize) -> (r: Result<(usize, usize)>)
    ensures
        r is Ok <==> offset + want <= map_len,
        r matches Ok((start, end)) ==> start == offset && end == offset + want,
        r is Err ==> r == Err::<(usize, usize), Errors>(Errors::ReadDataFileEOF),
{
    if offset > map_len as u64 || want as u64 > map_len as u64 - offset {
        return Err(Errors::ReadDataFileEOF);
    }
    let start = offset as usize;
    Ok((start, start + want))
}

} // verus!
