use vstd::prelude::*;

use crate::sys;

verus! {

/// A platform that has no memory to give: every request fails.
pub struct System {
    _priv: (),
}

impl System {
    /// The platform.
    pub fn new() -> (r: System)
        ensures
            !sys::System::zeroes(&r),
    {
        System { _priv: () }
    }
}

impl sys::System for System {
    open spec fn zeroes(&self) -> bool {
        false
    }

    fn allocate(&mut self, _size: usize) -> (r: (usize, Vec<u8>, u32)) {
        (0, Vec::new(), 0)
    }

    fn remap(&mut self, _ptr: usize, _oldsize: usize, _newsize: usize, _can_move: bool) -> (r:
        usize) {
        0
    }

    fn free_part(&mut self, _ptr: usize, _oldsize: usize, _newsize: usize) -> (r: bool) {
        false
    }

    fn free(&mut self, _ptr: usize, _size: usize) -> (r: bool) {
        false
    }

    fn can_release_part(&self, _flags: u32) -> bool {
        false
    }

    fn allocates_zeros(&self) -> (r: bool) {
        false
    }

    fn page_size(&self) -> (r: usize) {
        1
    }
}

} // verus!
