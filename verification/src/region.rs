//! Memory regions and the region catalog.
//!
//! A region is a contiguous, uniformly-protected span of a process's address
//! space.  A catalog is an immutable snapshot of the whole layout: regions
//! sorted by base address and pairwise non-overlapping.

use vstd::prelude::*;

verus! {

/// Backing classification of a region.  A `Module` region is backed by a
/// loaded executable or library image and can serve as a static anchor for
/// pointer paths.
#[derive(Clone, Copy, Debug, PartialEq, Eq, Structural)]
pub enum RegionKind {
    Module,
    Heap,
    Stack,
    Anonymous,
}

/// One contiguous span of the address space with its protection flags.
#[derive(Clone, Copy, Debug)]
pub struct MemoryRegion {
    pub base: u64,
    pub size: u64,
    pub readable: bool,
    pub writable: bool,
    pub executable: bool,
    pub kind: RegionKind,
}

impl MemoryRegion {
    /// A region is non-empty and its end address still fits in `u64`.
    pub open spec fn wf(self) -> bool {
        1 <= self.size && self.base + self.size <= u64::MAX
    }

    /// Exclusive end address.
    pub open spec fn end(self) -> int {
        self.base + self.size
    }

    /// Whether address `a` lies inside the region.
    pub open spec fn contains(self, a: int) -> bool {
        self.base <= a < self.end()
    }

    /// Whether the whole window `[a, a + len)` lies inside the region.
    pub open spec fn covers(self, a: int, len: int) -> bool {
        self.base <= a && a + len <= self.end()
    }
}

/// A well-formed catalog: every region well formed, sorted by base address,
/// and adjacent regions disjoint (which below is shown to make all pairs
/// disjoint).
pub open spec fn catalog_wf(regs: Seq<MemoryRegion>) -> bool {
    &&& (forall|i: int| 0 <= i < regs.len() ==> (#[trigger] regs[i]).wf())
    &&& (forall|i: int| 0 <= i && i + 1 < regs.len() ==> (#[trigger] regs[i]).end() <= regs[i + 1].base)
}

/// In a well-formed catalog every earlier region ends at or before a later
/// one begins.
pub proof fn lemma_catalog_ordered(regs: Seq<MemoryRegion>, i: int, j: int)
    requires
        catalog_wf(regs),
        0 <= i < j < regs.len(),
    ensures
        regs[i].end() <= regs[j].base,
    decreases j - i,
{
    if i + 1 < j {
        lemma_catalog_ordered(regs, i + 1, j);
        assert(regs[i].end() <= regs[i + 1].base);
        assert(regs[i + 1].base < regs[i + 1].end());
    }
}

/// At most one region of a well-formed catalog contains a given address.
pub proof fn lemma_catalog_unique(regs: Seq<MemoryRegion>, i: int, j: int, a: int)
    requires
        catalog_wf(regs),
        0 <= i < regs.len(),
        0 <= j < regs.len(),
        regs[i].contains(a),
        regs[j].contains(a),
    ensures
        i == j,
{
    if i < j {
        lemma_catalog_ordered(regs, i, j);
    } else if j < i {
        lemma_catalog_ordered(regs, j, i);
    }
}

} // verus!
