# hyperion

The verified core of a small unix-like kernel and of the library that its user
programs link against. Each module of `src/` holds the decisions and the
bookkeeping of one part of the system, with contracts that Verus proves:

- `addr`, `page_table`, `page_map`, `vmm`, `buf`: addresses, page table entries,
  mapping and walking page tables, splitting buffers at page boundaries.
- `pmm`, `frame_alloc`, `bitmap_init`: physical page allocators (a bitmap and a
  reference counted one) and where their bookkeeping goes.
- `slab`, `mem_slab`, `heap`: the slab allocators of the kernel and of user space,
  over a model of the memory words they write.
- `ring`, `pipe`, `sync`, `timer`: ring buffer indices, pipes, lock and futex words,
  wait queues, sleeping and periodic timers.
- `loader`, `stack`, `env`, `process`: loading ELF programs, thread stacks, program
  arguments, exit codes.
- `io`, `fs`: buffered reading and writing, directory listings.
- `pci`, `entropy`: PCI configuration space decoding, the entropy pool (a BLAKE3
  chain whose digest seeds a ChaCha20 stream that is drawn 32 bytes at a time).

Laws that span several calls are public proof functions next to the functions they
speak of (for example `pmm::lemma_free_undoes_allocate`,
`ring::lemma_push_then_pop`, `slab::lemma_fresh_allocation_aligned`,
`frame_alloc::lemma_used_within_usable`, `frame_alloc::lemma_usable_within_total`).

`app/` holds what the verified core leaves to the running system: port and register
access, the loops that repeat system calls, global state behind locks, printing.
`tests/` runs the library on concrete values.
