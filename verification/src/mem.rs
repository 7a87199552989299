//! The memory space of an attached process.
//!
//! The engine sees a process's memory as plain data: one byte vector per
//! region of the catalog.  The platform layer that actually transports bytes
//! in and out of a live process is outside this crate; everything the engine
//! decides about memory is stated and proved against this model.

use vstd::prelude::*;
use crate::region::{MemoryRegion, catalog_wf, lemma_catalog_unique};

verus! {

/// One region of the catalog together with its current contents.
#[derive(Clone, Debug)]
pub struct RegionData {
    pub region: MemoryRegion,
    pub bytes: Vec<u8>,
}

/// A snapshot of a process's whole address space.
#[derive(Clone, Debug)]
pub struct MemorySpace {
    pub regions: Vec<RegionData>,
}

impl MemorySpace {
    /// The catalog: the region descriptors without their contents.
    pub open spec fn catalog(self) -> Seq<MemoryRegion> {
        self.regions@.map_values(|rd: RegionData| rd.region)
    }

    /// Well-formed: the catalog is sorted and non-overlapping, and every
    /// region holds exactly `size` bytes.
    pub open spec fn wf(self) -> bool {
        &&& catalog_wf(self.catalog())
        &&& (forall|i: int| 0 <= i < self.regions@.len()
                ==> (#[trigger] self.regions@[i]).bytes@.len() == self.regions@[i].region.size)
    }

    /// Whether some region contains address `a`.
    pub open spec fn mapped(self, a: int) -> bool {
        exists|i: int| 0 <= i < self.catalog().len() && (#[trigger] self.catalog()[i]).contains(a)
    }

    /// The index of the region containing `a` (unique when well formed).
    pub open spec fn region_at(self, a: int) -> int {
        choose|i: int| 0 <= i < self.catalog().len() && (#[trigger] self.catalog()[i]).contains(a)
    }

    /// The byte stored at address `a` (meaningful only when `mapped(a)`).
    pub open spec fn byte_at(self, a: int) -> u8 {
        let i = self.region_at(a);
        self.regions@[i].bytes@[a - self.regions@[i].region.base]
    }

    /// Whether the window `[a, a + len)` lies inside one readable region.
    pub open spec fn can_read(self, a: int, len: int) -> bool {
        exists|i: int| 0 <= i < self.catalog().len()
            && (#[trigger] self.catalog()[i]).readable && self.catalog()[i].covers(a, len)
    }

    /// Whether the window `[a, a + len)` lies inside one writable region.
    pub open spec fn can_write(self, a: int, len: int) -> bool {
        exists|i: int| 0 <= i < self.catalog().len()
            && (#[trigger] self.catalog()[i]).writable && self.catalog()[i].covers(a, len)
    }

    /// The `len` bytes stored from address `a` on.
    pub open spec fn read_spec(self, a: int, len: int) -> Seq<u8> {
        Seq::new(len as nat, |j: int| self.byte_at(a + j))
    }
}

/// When region `i` contains `a`, it is the region `byte_at` reads from.
pub proof fn lemma_byte_at_region(m: MemorySpace, i: int, a: int)
    requires
        m.wf(),
        0 <= i < m.regions@.len(),
        m.catalog()[i].contains(a),
    ensures
        m.mapped(a),
        m.region_at(a) == i,
        m.byte_at(a) == m.regions@[i].bytes@[a - m.regions@[i].region.base],
{
    assert(m.mapped(a));
    let j = m.region_at(a);
    lemma_catalog_unique(m.catalog(), i, j, a);
}

impl MemorySpace {
    /// Whether region `k` grants the requested access over the whole window.
    pub open spec fn grants(self, for_write: bool, addr: int, len: int, k: int) -> bool {
        &&& (if for_write { self.catalog()[k].writable } else { self.catalog()[k].readable })
        &&& self.catalog()[k].covers(addr, len)
    }

    /// Finds the region that covers the window `[addr, addr + len)` with the
    /// requested access, or reports that none does.
    #[verifier::rlimit(50)]
    fn find_covering(&self, addr: u64, len: usize, for_write: bool) -> (r: Option<usize>)
        requires
            self.wf(),
        ensures
            match r {
                Some(i) => i < self.regions@.len()
                    && self.grants(for_write, addr as int, len as int, i as int),
                None => {
                    if for_write {
                        !self.can_write(addr as int, len as int)
                    } else {
                        !self.can_read(addr as int, len as int)
                    }
                },
            },
    {
        let n = self.regions.len();
        let mut i: usize = 0;
        while i < n
            invariant
                self.wf(),
                n == self.regions@.len(),
                i <= n,
                forall|k: int| 0 <= k < i ==> !self.grants(for_write, addr as int, len as int, k),
            decreases n - i,
        {
            let r = self.regions[i].region;
            assert(r == self.catalog()[i as int]);
            assert(r.wf());
            let end = r.base + r.size;
            let perm = if for_write { r.writable } else { r.readable };
            if perm && r.base <= addr && addr <= end && (len as u64) <= end - addr {
                assert(self.grants(for_write, addr as int, len as int, i as int));
                return Some(i);
            }
            assert(!self.grants(for_write, addr as int, len as int, i as int));
            i = i + 1;
        }
        proof {
            if for_write {
                if self.can_write(addr as int, len as int) {
                    let k = choose|k: int| 0 <= k < self.catalog().len()
                        && (#[trigger] self.catalog()[k]).writable
                        && self.catalog()[k].covers(addr as int, len as int);
                    assert(self.grants(true, addr as int, len as int, k));
                }
            } else {
                if self.can_read(addr as int, len as int) {
                    let k = choose|k: int| 0 <= k < self.catalog().len()
                        && (#[trigger] self.catalog()[k]).readable
                        && self.catalog()[k].covers(addr as int, len as int);
                    assert(self.grants(false, addr as int, len as int, k));
                }
            }
        }
        None
    }

    /// Reads `len` bytes from `addr`, or reports that the window is not
    /// readable.
    pub fn read_bytes(&self, addr: u64, len: usize) -> (r: Option<Vec<u8>>)
        requires
            self.wf(),
        ensures
            match r {
                Some(v) => {
                    &&& self.can_read(addr as int, len as int)
                    &&& v@ == self.read_spec(addr as int, len as int)
                    &&& v@.len() == len
                },
                None => !self.can_read(addr as int, len as int),
            },
    {
        match self.find_covering(addr, len, false) {
            None => None,
            Some(i) => {
                let r = self.regions[i].region;
                assert(r == self.catalog()[i as int]);
                let blen = self.regions[i].bytes.len();
                assert(blen == r.size);
                let offset = (addr - r.base) as usize;
                assert(offset == addr - r.base);
                let mut out: Vec<u8> = Vec::new();
                let mut j: usize = 0;
                while j < len
                    invariant
                        self.wf(),
                        i < self.regions@.len(),
                        r == self.catalog()[i as int],
                        r.covers(addr as int, len as int),
                        blen == self.regions@[i as int].bytes@.len(),
                        blen == r.size,
                        offset == addr - r.base,
                        offset + len <= blen,
                        j <= len,
                        out@.len() == j,
                        forall|k: int| 0 <= k < j ==> out@[k] == self.byte_at(addr + k),
                    decreases len - j,
                {
                    proof {
                        assert(r.contains(addr + j));
                        lemma_byte_at_region(*self, i as int, addr + j);
                    }
                    let b = self.regions[i].bytes[offset + j];
                    out.push(b);
                    j = j + 1;
                }
                proof {
                    assert(out@ =~= self.read_spec(addr as int, len as int));
                }
                Some(out)
            },
        }
    }
}

/// What a successful write of `data` at `addr` does to a memory space: the
/// layout is unchanged, the window now holds `data`, and every other mapped
/// byte keeps its old value.
pub open spec fn write_post(m0: MemorySpace, m1: MemorySpace, addr: u64, data: Seq<u8>) -> bool {
    &&& m1.wf()
    &&& m1.catalog() == m0.catalog()
    &&& (forall|a: int| addr <= a < addr + data.len()
            ==> #[trigger] m1.byte_at(a) == data[a - addr])
    &&& (forall|a: int| m0.mapped(a) && !(addr <= a < addr + data.len())
            ==> #[trigger] m1.byte_at(a) == m0.byte_at(a))
}

impl MemorySpace {
    /// Writes `data` at `addr` if the window lies in one writable region;
    /// returns whether the write happened.  A failed write changes nothing.
    #[verifier::rlimit(100)]
    pub fn write_bytes(&mut self, addr: u64, data: &Vec<u8>) -> (ok: bool)
        requires
            old(self).wf(),
        ensures
            final(self).wf(),
            ok == old(self).can_write(addr as int, data@.len() as int),
            ok ==> write_post(*old(self), *final(self), addr, data@),
            !ok ==> *final(self) == *old(self),
    {
        match self.find_covering(addr, data.len(), true) {
            None => false,
            Some(i) => {
                let ghost m0 = *self;
                let r = self.regions[i].region;
                assert(r == m0.catalog()[i as int]);
                let blen = self.regions[i].bytes.len();
                assert(blen == r.size);
                let offset = (addr - r.base) as usize;
                assert(offset == addr - r.base);
                let len = data.len();
                let mut rd = self.regions.remove(i);
                let ghost rd0 = m0.regions@[i as int];
                let mut j: usize = 0;
                while j < len
                    invariant
                        rd.region == rd0.region,
                        rd.bytes@.len() == rd0.bytes@.len(),
                        r == rd0.region,
                        r.covers(addr as int, len as int),
                        r.wf(),
                        rd0.bytes@.len() == r.size,
                        blen == rd0.bytes@.len(),
                        offset == addr - r.base,
                        offset + len <= blen,
                        len == data@.len(),
                        j <= len,
                        forall|m: int| 0 <= m < rd.bytes@.len() ==> #[trigger] rd.bytes@[m]
                            == (if offset <= m < offset + j { data@[m - offset] } else { rd0.bytes@[m] }),
                    decreases len - j,
                {
                    let b = data[j];
                    rd.bytes.set(offset + j, b);
                    j = j + 1;
                }
                self.regions.insert(i, rd);
                proof {
                    assert(self.regions@ =~= m0.regions@.update(i as int, rd));
                    lemma_write_update(m0, *self, i as int, rd, addr, data@);
                }
                true
            },
        }
    }
}

/// Replacing region `i`'s contents by its old contents with `data` laid down
/// at window offset `addr - base` establishes `write_post`.
#[verifier::rlimit(100)]
proof fn lemma_write_update(m0: MemorySpace, m1: MemorySpace, i: int, rd: RegionData, addr: u64, data: Seq<u8>)
    requires
        m0.wf(),
        0 <= i < m0.regions@.len(),
        m1.regions@ == m0.regions@.update(i, rd),
        rd.region == m0.regions@[i].region,
        rd.bytes@.len() == m0.regions@[i].bytes@.len(),
        m0.catalog()[i].covers(addr as int, data.len() as int),
        forall|m: int| 0 <= m < rd.bytes@.len() ==> #[trigger] rd.bytes@[m]
            == (if addr - rd.region.base <= m < addr - rd.region.base + data.len() {
                data[m - (addr - rd.region.base)]
            } else {
                m0.regions@[i].bytes@[m]
            }),
    ensures
        m1.wf(),
        write_post(m0, m1, addr, data),
{
    let r = m0.catalog()[i];
    let dl = data.len() as int;
    assert(m1.catalog() =~= m0.catalog());
    assert(m1.wf());
    assert forall|a: int| addr <= a < addr + dl
        implies #[trigger] m1.byte_at(a) == data[a - addr] by {
        assert(r.contains(a));
        lemma_byte_at_region(m1, i, a);
        assert(m1.regions@[i].bytes@[a - r.base] == data[a - addr]);
    }
    assert forall|a: int| m0.mapped(a) && !(addr <= a < addr + dl)
        implies #[trigger] m1.byte_at(a) == m0.byte_at(a) by {
        let k = choose|k: int| 0 <= k < m0.catalog().len()
            && (#[trigger] m0.catalog()[k]).contains(a);
        lemma_byte_at_region(m0, k, a);
        lemma_byte_at_region(m1, k, a);
        if k == i {
            assert(!(addr - r.base <= a - r.base < addr - r.base + dl));
        }
    }
}

/// Round-trip law: immediately after a successful write of `data` at `addr`,
/// reading `data.len()` bytes at `addr` yields exactly `data`, absent any
/// other mutation in between.
pub proof fn lemma_write_read_round_trip(m0: MemorySpace, m1: MemorySpace, addr: u64, data: Seq<u8>)
    requires
        write_post(m0, m1, addr, data),
    ensures
        m1.read_spec(addr as int, data.len() as int) =~= data,
{
}

} // verus!
