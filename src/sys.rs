use vstd::prelude::*;

use crate::layout::{ADDRESS_LIMIT, align_up, round_up};

verus! {

/// What the engine asks of the host: regions of address space with their
/// bytes, and their release.
///
/// Nothing the engine proves depends on a region being where the platform
/// says it is: the engine checks every region it is given against the
/// regions it already holds before it uses it.
pub trait System {
    /// Whether every region this platform hands out is filled with zeros.
    spec fn zeroes(&self) -> bool;

    /// Asks for a region of at least `size` bytes; gives its base address,
    /// its bytes and its flags, or base 0, no bytes and flags 0 on failure.
    fn allocate(&mut self, size: usize) -> (r: (usize, Vec<u8>, u32))
        ensures
            final(self).zeroes() == old(self).zeroes(),
            r.1@.len() == 0 || r.1@.len() >= size,
            r.1@.len() == 0 ==> r.0 == 0 && r.2 == 0,
            old(self).zeroes() ==> forall|i: int| 0 <= i < r.1@.len() ==> r.1@[i] == 0u8,
    ;

    /// Grows or shrinks a region, moving it only if `can_move`; gives its new
    /// base, or 0 where that cannot be done.
    fn remap(&mut self, ptr: usize, oldsize: usize, newsize: usize, can_move: bool) -> (r: usize)
        ensures
            final(self).zeroes() == old(self).zeroes(),
    ;

    /// Releases the tail `newsize..oldsize` of a region.
    fn free_part(&mut self, ptr: usize, oldsize: usize, newsize: usize) -> (r: bool)
        ensures
            final(self).zeroes() == old(self).zeroes(),
    ;

    /// Releases a whole region.
    fn free(&mut self, ptr: usize, size: usize) -> (r: bool)
        ensures
            final(self).zeroes() == old(self).zeroes(),
    ;

    /// Whether a region obtained with `flags` can give back its tail.
    fn can_release_part(&self, flags: u32) -> bool;

    /// Whether fresh regions are filled with zeros.
    fn allocates_zeros(&self) -> (r: bool)
        ensures
            r == self.zeroes(),
    ;

    /// The platform's page size.
    fn page_size(&self) -> (r: usize)
        ensures
            0 < r <= 0x10_0000,
    ;
}

/// A platform whose allocator may be shared by threads through a global lock.
pub trait GlobalSystem: System {
    /// Acquires the global lock.
    fn acquire_global_lock(&self);

    /// Releases the global lock.
    fn release_global_lock(&self);
}

/// Page size of the anonymous mappings that [`Platform`] hands out.
pub fn page_size() -> (r: usize)
    ensures
        r == 4096,
{
    4096
}

/// Anonymous mappings are filled with zeros.
pub fn allocates_zeros() -> (r: bool)
    ensures
        r,
{
    true
}

/// Any mapping can give back its tail.
pub fn can_release_part(_flags: u32) -> (r: bool)
    ensures
        r,
{
    true
}

/// A platform that maps zeroed pages from an address space of its own,
/// upward from a fixed start, as `memory.grow` or a fresh `mmap` would.
pub struct Platform {
    next: usize,
}

impl Platform {
    /// A platform whose first mapping starts at 1 MiB.
    pub fn new() -> (r: Platform)
        ensures
            r.next_base() == 0x10_0000,
    {
        Platform { next: 0x10_0000 }
    }

    /// Where the next mapping starts.
    pub closed spec fn next_base(&self) -> usize {
        self.next
    }
}

impl System for Platform {
    open spec fn zeroes(&self) -> bool {
        true
    }

    /// The next `size` bytes rounded up to whole pages, from where the last
    /// mapping ended; nothing once the address space is used up.
    fn allocate(&mut self, size: usize) -> (r: (usize, Vec<u8>, u32))
        ensures
            ({
                let fits = 0 < size <= ADDRESS_LIMIT && old(self).next_base() <= ADDRESS_LIMIT && size
                    + 4096 <= ADDRESS_LIMIT - old(self).next_base();
                &&& fits ==> r.0 == old(self).next_base() && r.1@.len() == round_up(
                    size as int,
                    4096,
                ) && r.2 == 0 && final(self).next_base() == old(self).next_base() + r.1@.len()
                &&& !fits ==> r.1@.len() == 0 && r.0 == 0 && final(self).next_base() == old(
                    self,
                ).next_base()
            }),
    {
        let page = page_size();
        if size == 0 || size > ADDRESS_LIMIT || self.next > ADDRESS_LIMIT || ADDRESS_LIMIT - self.next < size
            + page {
            return (0, Vec::new(), 0);
        }
        let len = align_up(size, page);
        let base = self.next;
        self.next = self.next + len;
        (base, vec![0u8; len], 0)
    }

    /// Only the latest mapping can change size, in place, and only upward.
    fn remap(&mut self, ptr: usize, oldsize: usize, newsize: usize, _can_move: bool) -> (r:
        usize)
        ensures
            ({
                let ok = ptr <= ADDRESS_LIMIT && oldsize <= ADDRESS_LIMIT - ptr && ptr + oldsize
                    == old(self).next_base() && oldsize <= newsize <= ADDRESS_LIMIT - ptr;
                &&& ok ==> r == ptr && final(self).next_base() == ptr + newsize
                &&& !ok ==> r == 0 && final(self).next_base() == old(self).next_base()
            }),
    {
        if ptr > ADDRESS_LIMIT || oldsize > ADDRESS_LIMIT - ptr || ptr + oldsize != self.next
            || newsize < oldsize || newsize > ADDRESS_LIMIT - ptr {
            return 0;
        }
        self.next = ptr + newsize;
        ptr
    }

    fn free_part(&mut self, _ptr: usize, _oldsize: usize, _newsize: usize) -> (r: bool) {
        true
    }

    fn free(&mut self, _ptr: usize, _size: usize) -> (r: bool) {
        true
    }

    fn can_release_part(&self, flags: u32) -> bool {
        can_release_part(flags)
    }

    fn allocates_zeros(&self) -> (r: bool) {
        allocates_zeros()
    }

    fn page_size(&self) -> (r: usize) {
        page_size()
    }
}

impl GlobalSystem for Platform {
    fn acquire_global_lock(&self) {
    }

    fn release_global_lock(&self) {
    }
}

} // verus!
