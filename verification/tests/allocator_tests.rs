use ironkernel::allocator::{
    alloc_frames, frame_allocator, heap_allocator, Alloc, Allocator, Bitv, BuddyAlloc, Node,
    BITV_WORDS, FRAMES_START, HEAP_START,
};

fn buddy(order: usize) -> BuddyAlloc {
    BuddyAlloc::new(order, Bitv::from_storage(vec![0xffff_ffffu32; BITV_WORDS]))
}

#[test]
fn bitv_get_set_round_trip() {
    let mut v = Bitv::zeroed();
    assert_eq!(v.get(5), Node::Unused);
    v.set(5, Node::Full);
    v.set(6, Node::Split);
    v.set(21, Node::Used);
    assert_eq!(v.get(5), Node::Full);
    assert_eq!(v.get(6), Node::Split);
    assert_eq!(v.get(21), Node::Used);
    assert_eq!(v.get(4), Node::Unused);
    assert_eq!(v.get(7), Node::Unused);
    v.set(6, Node::Unused);
    assert_eq!(v.get(6), Node::Unused);
    assert_eq!(v.get(5), Node::Full);
    assert_eq!(v.size(), 0x10000);
}

#[test]
fn bitv_clear() {
    let mut v = Bitv::from_storage(vec![0xffff_ffffu32; BITV_WORDS]);
    assert_eq!(v.get(0), Node::Full);
    v.clear();
    assert_eq!(v.get(0), Node::Unused);
    assert_eq!(v.get(BITV_WORDS * 16 - 1), Node::Unused);
}

#[test]
fn allocates_first_fit_rounded_up() {
    let mut a = buddy(4);
    assert_eq!(a.allocate(1), (0, 1));
    assert_eq!(a.allocate(3), (4, 4));
    assert_eq!(a.allocate(1), (1, 1));
    assert_eq!(a.allocate(2), (2, 2));
    assert_eq!(a.allocate(0), (8, 1));
    assert_eq!(a.allocate(5), (0, 0));
    assert_eq!(a.allocate(4), (12, 4));
}

#[test]
fn requests_that_would_fill_the_tree() {
    let mut a = buddy(3);
    assert!(a.would_fill(8));
    assert!(a.would_fill(5));
    assert!(!a.would_fill(4));
    assert_eq!(a.allocate(4), (0, 4));
    assert!(a.would_fill(4));
    assert!(a.would_fill(3));
    assert!(!a.would_fill(2));
    assert_eq!(a.allocate(2), (4, 2));
    assert!(!a.would_fill(0));
    assert_eq!(a.allocate(1), (6, 1));
    assert!(a.would_fill(1));
    assert!(!a.would_fill(2));
    assert_eq!(a.allocate(2), (0, 0));
}

#[test]
fn out_of_memory_leaves_the_tree_unchanged() {
    let mut a = buddy(3);
    assert_eq!(a.allocate(4), (0, 4));
    assert_eq!(a.allocate(1), (4, 1));
    assert_eq!(a.allocate(4), (0, 0));
    a.free(0);
    assert_eq!(a.allocate(4), (0, 4));
}

#[test]
fn coalesces_freed_buddies() {
    let mut a = buddy(8);
    assert_eq!(a.allocate(64), (0, 64));
    assert_eq!(a.allocate(64), (64, 64));
    assert_eq!(a.allocate(256), (0, 0));
    a.free(0);
    a.free(64);
    assert_eq!(a.allocate(128), (0, 128));
}

#[test]
fn coalesces_small_blocks() {
    let mut a = buddy(4);
    let mut got = Vec::new();
    for _ in 0..8 {
        got.push(a.allocate(1));
    }
    assert_eq!(got, (0..8).map(|o| (o, 1)).collect::<Vec<_>>());
    for o in [3usize, 0, 7, 1, 2, 6, 5, 4].iter() {
        a.free(*o);
    }
    assert_eq!(a.allocate(8), (0, 8));
}

#[test]
fn free_undoes_allocate() {
    let mut a = buddy(5);
    assert_eq!(a.allocate(4), (0, 4));
    let (o, s) = a.allocate(8);
    assert_eq!((o, s), (8, 8));
    a.free(o);
    assert_eq!(a.allocate(8), (8, 8));
}

#[test]
fn free_of_unallocated_unit_changes_nothing() {
    let mut a = buddy(4);
    assert_eq!(a.allocate(2), (0, 2));
    a.free(9);
    assert_eq!(a.allocate(2), (2, 2));
}

#[test]
fn free_by_any_unit_of_the_block() {
    let mut a = buddy(5);
    assert_eq!(a.allocate(8), (0, 8));
    a.free(6);
    assert_eq!(a.allocate(16), (0, 16));
}

#[test]
fn heap_hands_out_addresses() {
    let mut h: Alloc = heap_allocator(Bitv::zeroed());
    assert_eq!(h.allocate(100), (HEAP_START, 128));
    assert_eq!(h.allocate(1), (HEAP_START + 128, 1));
    h.free(HEAP_START + 5);
    assert_eq!(h.allocate(64), (HEAP_START, 64));
    h.free(0);
    h.free(HEAP_START + (1 << 17));
    assert_eq!(h.allocate(1), (HEAP_START + 64, 1));
}

#[test]
fn frames_are_page_sized() {
    let mut f = frame_allocator(Bitv::zeroed());
    assert_eq!(alloc_frames(&mut f, 1), Some(FRAMES_START));
    assert_eq!(alloc_frames(&mut f, 4), Some(FRAMES_START + 4 * 4096));
    assert_eq!(alloc_frames(&mut f, 1), Some(FRAMES_START + 4096));
    assert_eq!(f.allocate(0), (FRAMES_START + 2 * 4096, 4096));
    assert_eq!(alloc_frames(&mut f, 8192), None);
}

#[test]
fn heap_reports_requests_that_would_fill_it() {
    let h: Alloc = heap_allocator(Bitv::zeroed());
    assert!(h.would_fill(1 << 17));
    assert!(!h.would_fill(1 << 16));
}

#[test]
fn bitv_lengths() {
    let v = Bitv::zeroed();
    assert_eq!(v.get(BITV_WORDS * 16 - 1), Node::Unused);
}
