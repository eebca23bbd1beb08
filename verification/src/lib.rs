//! The core logic of a small ARM kernel, with its behaviour stated and proved:
//! integer formatting (`ints`), the compiler runtime's 64-bit division and
//! multiplication helpers (`rt`), a binary buddy allocator over a two-bit tree
//! (`allocator`, with the tree's model in `tree`), first-level MMU descriptors
//! (`mmu`), pointer offsets (`ptr`), a framebuffer console (`screen`) and an
//! in-memory file tree (`fs`).

pub mod allocator;
pub mod fs;
pub mod ints;
pub mod mmu;
pub mod ptr;
pub mod rt;
pub mod screen;
pub mod tree;
