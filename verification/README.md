# ironkernel

The logic of a small kernel for ARM boards, with its behaviour stated in
contracts and proved against them.

## Layout

- `src/` — the verified library.
  - `allocator.rs` — the two-bit node vector `Bitv`, the binary buddy
    allocator `BuddyAlloc` (first-fit allocation of aligned power-of-two
    blocks that always leaves a unit free, freeing with coalescing of buddies), the address-level `Alloc`
    behind the `Allocator` trait, and the kernel heap and frame allocators.
    Its view is the set of allocated `(offset, length)` blocks.
  - `tree.rs` — the model of the implicit buddy tree (which blocks a tree
    holds, which nodes are reachable, its shape rules) and the lemmas the
    allocator's proofs use.
  - `rt.rs` — 64-bit unsigned and signed division and remainder, and
    multiplication with overflow detection, as the compiler runtime provides
    them for targets without those instructions.
  - `ints.rs` — integer ranges and integer-to-text conversion in any radix.
  - `mmu.rs` — section descriptors and the boot page directory.
  - `ptr.rs` — byte pointer offsets.
  - `screen.rs` — the framebuffer console: painting, scrolling, the cursor,
    saving and restoring the cell under it, drawing glyphs, and the display
    controller's mode registers.
  - `fs.rs` — an in-memory file tree: walking paths, appending to files,
    creating files.
- `tests/` — tests of the library.
- `app/` — the boot sequence and everything that touches hardware: register
  reads and writes, copying the console to the framebuffer, writing the page
  directory and enabling it, clearing and copying raw memory.
