pub mod log_record;
pub mod varint;

use vstd::prelude::*;

verus! {

/// What the index needs to know of a stored location.
pub trait LogPosition {
    spec fn size_spec(&self) -> u32;

    fn get_size(&self) -> (r: u32)
        ensures
            r == self.size_spec(),
    ;
}

impl LogPosition for log_record::LogRecordPos {
    open spec fn size_spec(&self) -> u32 {
        self.size
    }

    fn get_size(&self) -> (r: u32) {
        self.size
    }
}

} // verus!
