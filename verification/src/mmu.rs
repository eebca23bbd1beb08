use vstd::prelude::*;

verus! {

/// Descriptor type bits of a section entry.
pub const SECTION: u32 = 0b10010;

/// Access permission bit: read/write.
pub const RW: u32 = 1 << 10;

/// Access permission bit: user mode.
pub const USER: u32 = 1 << 11;

/// Number of entries of a first-level page directory.
pub const DIRECTORY_ENTRIES: usize = 4096;

/// One first-level translation table entry.
#[derive(PartialEq, Eq, Structural, Clone, Copy, Debug)]
pub struct Descriptor(pub u32);

impl Descriptor {
    /// A section entry for the section at `base` with permission bits `flags`.
    pub fn section(base: u32, flags: u32) -> (res: Descriptor)
        ensures
            res.0 == base | flags | SECTION,
    {
        Descriptor(base | flags | SECTION)
    }
}

/// A first-level translation table of `DIRECTORY_ENTRIES` entries.
pub struct PageDirectory {
    tables: Vec<Descriptor>,
}

impl View for PageDirectory {
    type V = Seq<Descriptor>;

    closed spec fn view(&self) -> Seq<Descriptor> {
        self.tables@
    }
}

impl PageDirectory {
    /// A directory whose entries are all zero (faults).
    pub fn zeroed() -> (res: PageDirectory)
        ensures
            res@.len() == DIRECTORY_ENTRIES,
            forall|i: int| 0 <= i < DIRECTORY_ENTRIES ==> #[trigger] res@[i] == Descriptor(0),
    {
        let mut tables: Vec<Descriptor> = Vec::new();
        let mut k: usize = 0;
        while k < DIRECTORY_ENTRIES
            invariant
                k <= DIRECTORY_ENTRIES,
                tables@.len() == k,
                forall|i: int| 0 <= i < k ==> #[trigger] tables@[i] == Descriptor(0),
            decreases DIRECTORY_ENTRIES - k,
        {
            tables.push(Descriptor(0));
            k += 1;
        }
        PageDirectory { tables }
    }

    /// The entry at index `i`.
    pub fn entry(&self, i: usize) -> (res: Descriptor)
        requires
            i < self@.len(),
        ensures
            res == self@[i as int],
    {
        self.tables[i]
    }

    /// Sets up the boot mapping of a zeroed directory: entry 0 maps the first
    /// section, read/write; every other entry is kept.
    pub fn init(&mut self)
        requires
            old(self)@.len() == DIRECTORY_ENTRIES,
        ensures
            final(self)@ == old(self)@.update(0, Descriptor(0 | RW | SECTION)),
    {
        let d = Descriptor::section(0, RW);
        self.tables.set(0, d);
    }
}

} // verus!
