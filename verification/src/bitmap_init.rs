//! Where the bitmap of the frame allocator goes in the usable memory that the boot
//! loader reports.

use vstd::prelude::*;

verus! {

/// Bytes of a bitmap with one bit per byte address from `min` to `max`.
pub open spec fn bitmap_size_for(min: u64, max: u64) -> int {
    (max - min) / 8 + if (max - min) % 8 != 0 {
        1int
    } else {
        0int
    }
}

/// The first usable range, of `(address, size)` ranges, that is at least `size`
/// bytes long.
#[verifier::opaque]
pub open spec fn first_fitting(regions: Seq<(u64, u64)>, size: int) -> Option<int> {
    if exists|i: int| 0 <= i < regions.len() && regions[i].1 >= size {
        Some(
            choose|i: int|
                0 <= i < regions.len() && regions[i].1 >= size && forall|j: int|
                    0 <= j < i ==> regions[j].1 < size,
        )
    } else {
        None
    }
}

/// Where the frame bitmap of the usable memory from `min_usable_addr` to
/// `max_usable_addr` goes: at the start of the first usable range that holds it,
/// with its size in bytes; nothing when no range does.
pub fn init_frame_allocator(regions: &Vec<(u64, u64)>, min_usable_addr: u64, max_usable_addr: u64) -> (r: Option<
    (u64, u64),
>)
    requires
        min_usable_addr <= max_usable_addr,
    ensures
        first_fitting(regions@, bitmap_size_for(min_usable_addr, max_usable_addr)) is None ==> r is None,
        first_fitting(regions@, bitmap_size_for(min_usable_addr, max_usable_addr)) matches Some(i) ==> r == Some(
            (regions@[i].0, bitmap_size_for(min_usable_addr, max_usable_addr) as u64),
        ),
{
    let span = max_usable_addr - min_usable_addr;
    let bitmap_size = span / 8 + if span % 8 != 0 {
        1
    } else {
        0
    };
    let ghost size = bitmap_size_for(min_usable_addr, max_usable_addr);
    assert(bitmap_size == size);
    let mut i: usize = 0;
    while i < regions.len()
        invariant
            i <= regions@.len(),
            bitmap_size == size,
            size == bitmap_size_for(min_usable_addr, max_usable_addr),
            forall|j: int| 0 <= j < i ==> regions@[j].1 < size,
        decreases regions@.len() - i,
    {
        if regions[i].1 >= bitmap_size {
            proof {
                reveal(first_fitting);
                assert(regions@[i as int].1 >= size);
                let k = choose|k: int|
                    0 <= k < regions@.len() && regions@[k].1 >= size && forall|j: int| 0 <= j < k ==> regions@[j].1 < size;
                if k < i {
                } else if k > i {
                    assert(regions@[i as int].1 < size);
                }
            }
            return Some((regions[i].0, bitmap_size));
        }
        i = i + 1;
    }
    proof {
        reveal(first_fitting);
    }
    None
}

} // verus!
