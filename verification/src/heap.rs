//! The user space heap: pages for the slab allocator are taken from a bump pointer
//! that starts high in the address space and only grows; the caller maps them.

use vstd::prelude::*;

verus! {

/// Where the heap starts.
pub const HEAP_START: u64 = 0x1000_0000_0000;

/// Bytes of a heap page.
pub const HEAP_PAGE: usize = 0x1000;

/// Pages that hold `size` bytes.
pub open spec fn pages_for(size: usize) -> int {
    (size + HEAP_PAGE - 1) / HEAP_PAGE as int
}

/// The heap of a process: the address that the next pages get.
pub struct PageAllocator {
    heap_bottom: u64,
}

impl PageAllocator {
    pub closed spec fn spec_bottom(&self) -> u64 {
        self.heap_bottom
    }

    /// A heap that has handed out nothing yet.
    pub fn new() -> (r: Self)
        ensures
            r.spec_bottom() == HEAP_START,
    {
        PageAllocator { heap_bottom: HEAP_START }
    }

    /// Pages that an allocation of `size` bytes takes.
    pub fn pages_for(size: usize) -> (r: usize)
        ensures
            r == pages_for(size),
    {
        size / HEAP_PAGE + if size % HEAP_PAGE == 0 {
            0
        } else {
            1
        }
    }

    /// Reserve `pages` pages: their address, the old bottom; the bottom moves up past
    /// them, wrapping around at the top of the address space.
    pub fn reserve(&mut self, pages: usize) -> (r: u64)
        requires
            pages * HEAP_PAGE <= u64::MAX,
        ensures
            r == old(self).spec_bottom(),
            final(self).spec_bottom() == (old(self).spec_bottom() + pages * HEAP_PAGE) % 0x1_0000_0000_0000_0000,
    {
        let at = self.heap_bottom;
        let bytes: u64 = pages as u64 * HEAP_PAGE as u64;
        self.heap_bottom = self.heap_bottom.wrapping_add(bytes);
        at
    }
}

} // verus!
