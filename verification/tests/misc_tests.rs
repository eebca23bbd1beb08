use ironkernel::fs::{append, new, open, FileTree};
use ironkernel::mmu::{Descriptor, PageDirectory, RW, SECTION, USER};
use ironkernel::ptr::mut_offset;

#[test]
fn section_descriptor_bits() {
    assert_eq!(Descriptor::section(0, RW), Descriptor(0x412));
    assert_eq!(Descriptor::section(0x0010_0000, RW | USER), Descriptor(0x0010_0000 | 0xc00 | SECTION));
}

#[test]
fn boot_directory_maps_first_section() {
    let mut d = PageDirectory::zeroed();
    assert_eq!(d.entry(0), Descriptor(0));
    d.init();
    assert_eq!(d.entry(0), Descriptor(0x412));
    assert_eq!(d.entry(1), Descriptor(0));
    assert_eq!(d.entry(4095), Descriptor(0));
}

#[test]
fn pointer_offsets() {
    assert_eq!(mut_offset(100, -4), 96);
    assert_eq!(mut_offset(100, 28), 128);
    assert_eq!(mut_offset(0, 0), 0);
}

#[test]
fn files_are_created_opened_and_appended() {
    let mut t = FileTree::new();
    assert!(new(&mut t, 0, b"", b"notes"));
    assert_eq!(open(&t, 0, b"notes"), Some((1, true, true)));
    assert!(append(&mut t, 0, b"notes", b"hello "));
    assert!(append(&mut t, 0, b"notes", b"world"));
    assert_eq!(t.nodes[1].contents, b"hello world".to_vec());
    assert_eq!(t.nodes[0].children, vec![1]);
}

#[test]
fn paths_walk_directories() {
    let mut t = FileTree::new();
    t.nodes.push(ironkernel::fs::FsNode {
        name: b"etc".to_vec(),
        is_leaf: false,
        children: Vec::new(),
        contents: Vec::new(),
    });
    t.nodes[0].children.push(1);
    assert!(new(&mut t, 0, b"etc", b"motd"));
    assert_eq!(open(&t, 0, b"etc"), Some((1, false, true)));
    assert_eq!(open(&t, 0, b"etc/"), Some((1, false, true)));
    assert_eq!(open(&t, 0, b"etc/motd"), Some((2, true, true)));
    assert_eq!(open(&t, 0, b"etc/motd/x"), Some((2, true, false)));
    assert_eq!(open(&t, 0, b"etc/none"), None);
    assert_eq!(open(&t, 0, b"usr"), None);
    assert_eq!(open(&t, 0, b""), Some((0, false, true)));
}

#[test]
fn missing_targets_are_refused() {
    let mut t = FileTree::new();
    assert!(!append(&mut t, 0, b"nothing", b"x"));
    assert!(new(&mut t, 0, b"", b"f"));
    assert!(!new(&mut t, 0, b"f", b"g"));
    assert!(!new(&mut t, 0, b"d", b"g"));
    assert_eq!(t.nodes.len(), 2);
}
