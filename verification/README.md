# A small RISC-V kernel core, verified

The library in `src/` holds the decisions of a small RISC-V (Sv39) kernel,
each with a contract proved by Verus:

- `page`: the page allocator (first-fit runs of pages over a descriptor array),
  with `alloc_pages`, `zalloc`, `dealloc` and the allocation report;
- `mmu`: three-level Sv39 page tables kept in allocator pages: `map`,
  `map_range`, `unmap`, `virt_to_phys`; `table_laws` holds the proofs about
  table trees that these rest on;
- `kmem`: the setup of the kernel's byte allocator;
- `process`: process creation and teardown, the process list and the
  round-robin scheduler (re-exported by `sched`);
- `trap`, `ecall`: what the trap handler does for each cause;
- `cpu`, `plic`, `uart`: register values the kernel computes.

Memory is modelled: the allocator owns the words of its pages, and page tables
live in those words. `app/` is the thin layer that talks to the hardware:
CSR access, memory-mapped registers, printing and the boot entry points; before
it points the hardware at a trap frame or a page table it stores the words the
library wrote for the pages at their physical addresses.
