//! Verified core of a small unix-like kernel and its user space library: physical and
//! virtual addresses, Sv48 and x86_64 page tables, a lock-free style ring buffer index,
//! the frame, page and slab allocators, PCI configuration decoding, the entropy pool,
//! ELF loading, buffered reading and writing, pipes, timers, lock words and the
//! layout of thread stacks and program arguments.

use vstd::prelude::*;

pub mod addr;
pub mod ring;
pub mod page_table;
pub mod page_map;
pub mod frame_alloc;
pub mod vmm;
pub mod pci;
pub mod slab;
pub mod process;
pub mod sync;
pub mod entropy;
pub mod pmm;
pub mod mem_slab;
pub mod stack;
pub mod buf;
pub mod loader;
pub mod io;
pub mod fs;
pub mod env;
pub mod timer;
pub mod pipe;
pub mod bitmap_init;
pub mod heap;

