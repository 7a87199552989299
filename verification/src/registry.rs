//! The hardware breakpoint/watchpoint slot registry.
//!
//! A process offers a small, fixed number of hardware debug slots.  The
//! registry allocates one slot per trigger, keeps addresses unique per
//! trigger kind, and enforces the watchpoint size/alignment rules before
//! any slot is touched.  An entry is created `Requested`; the owner reports
//! the hardware programming outcome, which either makes it `Active` or
//! removes it again.  Session teardown clears every entry unconditionally.

use vstd::prelude::*;
use crate::error::EngineError;

verus! {

/// Largest supported watchpoint size in bytes.
pub const MAX_WATCH_SIZE: u64 = 8;

/// What kind of access fires a watchpoint.
#[derive(Clone, Copy, Debug, PartialEq, Eq, Structural)]
pub enum WatchCondition {
    Read,
    Write,
    ReadWrite,
    Execute,
}

/// Lifecycle of a registered trigger.  `Requested` entries have a slot
/// reserved but no confirmed hardware write yet; removal deletes the entry,
/// so no removed entry lingers in the table.
#[derive(Clone, Copy, Debug, PartialEq, Eq, Structural)]
pub enum EntryState {
    Requested,
    Active,
}

/// A hardware execution breakpoint at an instruction address.
#[derive(Clone, Copy, Debug)]
pub struct BreakpointEntry {
    pub address: u64,
    pub slot: usize,
    pub state: EntryState,
}

/// A hardware data watchpoint over `size` bytes at an aligned address.
#[derive(Clone, Copy, Debug)]
pub struct WatchpointEntry {
    pub address: u64,
    pub size: u64,
    pub condition: WatchCondition,
    pub slot: usize,
    pub state: EntryState,
}

/// The per-process trigger registry.
#[derive(Clone, Debug)]
pub struct Registry {
    pub slot_count: usize,
    pub slots_used: Vec<bool>,
    pub breakpoints: Vec<BreakpointEntry>,
    pub watchpoints: Vec<WatchpointEntry>,
}

/// Whether some breakpoint entry carries address `a`.
pub open spec fn bp_has_addr(s: Seq<BreakpointEntry>, a: u64) -> bool {
    exists|k: int| 0 <= k < s.len() && (#[trigger] s[k]).address == a
}

/// Whether some watchpoint entry carries address `a`.
pub open spec fn wp_has_addr(s: Seq<WatchpointEntry>, a: u64) -> bool {
    exists|k: int| 0 <= k < s.len() && (#[trigger] s[k]).address == a
}

/// The index of the breakpoint entry at address `a` (unique when the
/// registry is well formed).
pub open spec fn bp_index_of(s: Seq<BreakpointEntry>, a: u64) -> int {
    choose|k: int| 0 <= k < s.len() && (#[trigger] s[k]).address == a
}

/// The index of the watchpoint entry at address `a`.
pub open spec fn wp_index_of(s: Seq<WatchpointEntry>, a: u64) -> int {
    choose|k: int| 0 <= k < s.len() && (#[trigger] s[k]).address == a
}

/// A watchpoint size must be a power of two no larger than
/// `MAX_WATCH_SIZE`, and the address must be aligned to it.
pub open spec fn valid_watch(address: u64, size: u64) -> bool {
    &&& (size == 1 || size == 2 || size == 4 || size == 8)
    &&& address % size == 0
}

impl Registry {
    /// Well-formed: the slot map matches the slot count, every entry holds a
    /// distinct marked slot, and addresses are unique per trigger kind.
    pub open spec fn wf(self) -> bool {
        &&& self.slots_used@.len() == self.slot_count
        &&& (forall|k: int| 0 <= k < self.breakpoints@.len() ==> {
            let e = #[trigger] self.breakpoints@[k];
            e.slot < self.slot_count && self.slots_used@[e.slot as int]
        })
        &&& (forall|k: int| 0 <= k < self.watchpoints@.len() ==> {
            let e = #[trigger] self.watchpoints@[k];
            e.slot < self.slot_count && self.slots_used@[e.slot as int]
        })
        &&& (forall|k: int, l: int| 0 <= k < l < self.breakpoints@.len()
                ==> (#[trigger] self.breakpoints@[k]).slot != (#[trigger] self.breakpoints@[l]).slot)
        &&& (forall|k: int, l: int| 0 <= k < l < self.watchpoints@.len()
                ==> (#[trigger] self.watchpoints@[k]).slot != (#[trigger] self.watchpoints@[l]).slot)
        &&& (forall|k: int, l: int|
                0 <= k < self.breakpoints@.len() && 0 <= l < self.watchpoints@.len()
                ==> (#[trigger] self.breakpoints@[k]).slot != (#[trigger] self.watchpoints@[l]).slot)
        &&& (forall|k: int, l: int| 0 <= k < l < self.breakpoints@.len()
                ==> (#[trigger] self.breakpoints@[k]).address
                    != (#[trigger] self.breakpoints@[l]).address)
        &&& (forall|k: int, l: int| 0 <= k < l < self.watchpoints@.len()
                ==> (#[trigger] self.watchpoints@[k]).address
                    != (#[trigger] self.watchpoints@[l]).address)
        &&& (forall|k: int| 0 <= k < self.watchpoints@.len()
                ==> valid_watch((#[trigger] self.watchpoints@[k]).address, self.watchpoints@[k].size))
    }

    /// All hardware slots taken.
    pub open spec fn all_slots_used(self) -> bool {
        forall|k: int| 0 <= k < self.slots_used@.len() ==> #[trigger] self.slots_used@[k]
    }

    /// An empty registry with `slot_count` free hardware slots.
    pub fn new(slot_count: usize) -> (r: Registry)
        ensures
            r.wf(),
            r.slot_count == slot_count,
            r.breakpoints@.len() == 0,
            r.watchpoints@.len() == 0,
            forall|k: int| 0 <= k < r.slots_used@.len() ==> !(#[trigger] r.slots_used@[k]),
    {
        let mut slots_used: Vec<bool> = Vec::new();
        let mut k: usize = 0;
        while k < slot_count
            invariant
                k <= slot_count,
                slots_used@.len() == k,
                forall|j: int| 0 <= j < k ==> !(#[trigger] slots_used@[j]),
            decreases slot_count - k,
        {
            slots_used.push(false);
            k = k + 1;
        }
        Registry { slot_count, slots_used, breakpoints: Vec::new(), watchpoints: Vec::new() }
    }

    /// The first free hardware slot, if any.
    fn find_free_slot(&self) -> (r: Option<usize>)
        requires
            self.wf(),
        ensures
            match r {
                Some(i) => i < self.slot_count && !self.slots_used@[i as int],
                None => self.all_slots_used(),
            },
    {
        let mut i: usize = 0;
        let n = self.slots_used.len();
        while i < n
            invariant
                n == self.slots_used@.len(),
                n == self.slot_count,
                i <= n,
                forall|j: int| 0 <= j < i ==> #[trigger] self.slots_used@[j],
            decreases n - i,
        {
            if !self.slots_used[i] {
                return Some(i);
            }
            i = i + 1;
        }
        None
    }

    /// The index of the breakpoint entry at `address`, if any.
    fn find_bp(&self, address: u64) -> (r: Option<usize>)
        ensures
            match r {
                Some(i) => i < self.breakpoints@.len() && self.breakpoints@[i as int].address == address,
                None => !bp_has_addr(self.breakpoints@, address),
            },
    {
        let mut i: usize = 0;
        let n = self.breakpoints.len();
        while i < n
            invariant
                n == self.breakpoints@.len(),
                i <= n,
                forall|j: int| 0 <= j < i ==> (#[trigger] self.breakpoints@[j]).address != address,
            decreases n - i,
        {
            if self.breakpoints[i].address == address {
                return Some(i);
            }
            i = i + 1;
        }
        None
    }

    /// The index of the watchpoint entry at `address`, if any.
    fn find_wp(&self, address: u64) -> (r: Option<usize>)
        ensures
            match r {
                Some(i) => i < self.watchpoints@.len() && self.watchpoints@[i as int].address == address,
                None => !wp_has_addr(self.watchpoints@, address),
            },
    {
        let mut i: usize = 0;
        let n = self.watchpoints.len();
        while i < n
            invariant
                n == self.watchpoints@.len(),
                i <= n,
                forall|j: int| 0 <= j < i ==> (#[trigger] self.watchpoints@[j]).address != address,
            decreases n - i,
        {
            if self.watchpoints[i].address == address {
                return Some(i);
            }
            i = i + 1;
        }
        None
    }

    /// Reserves a hardware slot for an execution breakpoint at `address`.
    /// The new entry is `Requested` until the hardware outcome is reported.
    pub fn set_breakpoint(&mut self, address: u64) -> (r: Result<usize, EngineError>)
        requires
            old(self).wf(),
        ensures
            final(self).wf(),
            final(self).slot_count == old(self).slot_count,
            final(self).watchpoints == old(self).watchpoints,
            match r {
                Ok(slot) => {
                    &&& !bp_has_addr(old(self).breakpoints@, address)
                    &&& slot < old(self).slot_count
                    &&& !old(self).slots_used@[slot as int]
                    &&& final(self).breakpoints@ == old(self).breakpoints@.push(
                        (BreakpointEntry { address, slot, state: EntryState::Requested }),
                    )
                    &&& final(self).slots_used@ == old(self).slots_used@.update(slot as int, true)
                },
                Err(e) => *final(self) == *old(self) && (
                    if bp_has_addr(old(self).breakpoints@, address) {
                        e == EngineError::AddressInUse
                    } else {
                        e == EngineError::NoFreeSlot && old(self).all_slots_used()
                    }
                ),
            },
    {
        if let Some(_i) = self.find_bp(address) {
            return Err(EngineError::AddressInUse);
        }
        match self.find_free_slot() {
            None => Err(EngineError::NoFreeSlot),
            Some(slot) => {
                self.slots_used.set(slot, true);
                self.breakpoints.push(
                    BreakpointEntry { address, slot, state: EntryState::Requested },
                );
                Ok(slot)
            },
        }
    }

    /// Reserves a hardware slot for a data watchpoint.  The size and
    /// alignment rules are enforced before any slot is touched.
    pub fn set_watchpoint(&mut self, address: u64, size: u64, condition: WatchCondition) -> (r: Result<
        usize,
        EngineError,
    >)
        requires
            old(self).wf(),
        ensures
            final(self).wf(),
            final(self).slot_count == old(self).slot_count,
            final(self).breakpoints == old(self).breakpoints,
            match r {
                Ok(slot) => {
                    &&& valid_watch(address, size)
                    &&& !wp_has_addr(old(self).watchpoints@, address)
                    &&& slot < old(self).slot_count
                    &&& !old(self).slots_used@[slot as int]
                    &&& final(self).watchpoints@ == old(self).watchpoints@.push(
                        (WatchpointEntry { address, size, condition, slot, state: EntryState::Requested }),
                    )
                    &&& final(self).slots_used@ == old(self).slots_used@.update(slot as int, true)
                },
                Err(e) => *final(self) == *old(self) && (
                    if !valid_watch(address, size) {
                        e == EngineError::InvalidAlignment
                    } else if wp_has_addr(old(self).watchpoints@, address) {
                        e == EngineError::AddressInUse
                    } else {
                        e == EngineError::NoFreeSlot && old(self).all_slots_used()
                    }
                ),
            },
    {
        if !(size == 1 || size == 2 || size == 4 || size == 8) {
            return Err(EngineError::InvalidAlignment);
        }
        if address % size != 0 {
            return Err(EngineError::InvalidAlignment);
        }
        if let Some(_i) = self.find_wp(address) {
            return Err(EngineError::AddressInUse);
        }
        match self.find_free_slot() {
            None => Err(EngineError::NoFreeSlot),
            Some(slot) => {
                self.slots_used.set(slot, true);
                self.watchpoints.push(
                    WatchpointEntry { address, size, condition, slot, state: EntryState::Requested },
                );
                Ok(slot)
            },
        }
    }

    /// Removes the breakpoint at `address` and frees its slot; removing an
    /// absent address reports `NotFound` and changes nothing.
    pub fn remove_breakpoint(&mut self, address: u64) -> (r: Result<(), EngineError>)
        requires
            old(self).wf(),
        ensures
            final(self).wf(),
            final(self).slot_count == old(self).slot_count,
            final(self).watchpoints == old(self).watchpoints,
            match r {
                Ok(_) => {
                    let i = bp_index_of(old(self).breakpoints@, address);
                    &&& bp_has_addr(old(self).breakpoints@, address)
                    &&& final(self).breakpoints@ == old(self).breakpoints@.remove(i)
                    &&& final(self).slots_used@ == old(self).slots_used@.update(
                        old(self).breakpoints@[i].slot as int,
                        false,
                    )
                },
                Err(e) => {
                    &&& e == EngineError::NotFound
                    &&& !bp_has_addr(old(self).breakpoints@, address)
                    &&& *final(self) == *old(self)
                },
            },
    {
        match self.find_bp(address) {
            None => Err(EngineError::NotFound),
            Some(i) => {
                let e = self.breakpoints[i];
                self.breakpoints.remove(i);
                self.slots_used.set(e.slot, false);
                proof {
                    let olds = old(self).breakpoints@;
                    let j = bp_index_of(olds, address);
                    assert(olds[i as int].address == address);
                    assert(olds[j].address == address);
                    assert(j == i as int);
                }
                Ok(())
            },
        }
    }

    /// Removes the watchpoint at `address` and frees its slot; removing an
    /// absent address reports `NotFound` and changes nothing.
    pub fn remove_watchpoint(&mut self, address: u64) -> (r: Result<(), EngineError>)
        requires
            old(self).wf(),
        ensures
            final(self).wf(),
            final(self).slot_count == old(self).slot_count,
            final(self).breakpoints == old(self).breakpoints,
            match r {
                Ok(_) => {
                    let i = wp_index_of(old(self).watchpoints@, address);
                    &&& wp_has_addr(old(self).watchpoints@, address)
                    &&& final(self).watchpoints@ == old(self).watchpoints@.remove(i)
                    &&& final(self).slots_used@ == old(self).slots_used@.update(
                        old(self).watchpoints@[i].slot as int,
                        false,
                    )
                },
                Err(e) => {
                    &&& e == EngineError::NotFound
                    &&& !wp_has_addr(old(self).watchpoints@, address)
                    &&& *final(self) == *old(self)
                },
            },
    {
        match self.find_wp(address) {
            None => Err(EngineError::NotFound),
            Some(i) => {
                let e = self.watchpoints[i];
                self.watchpoints.remove(i);
                self.slots_used.set(e.slot, false);
                proof {
                    let olds = old(self).watchpoints@;
                    let j = wp_index_of(olds, address);
                    assert(olds[i as int].address == address);
                    assert(olds[j].address == address);
                    assert(j == i as int);
                }
                Ok(())
            },
        }
    }

    /// Reports the hardware programming outcome for the `Requested`
    /// breakpoint at `address`: success makes it `Active`, failure removes
    /// it and frees its slot, so no entry is ever observably `Active`
    /// without a confirmed hardware write.
    pub fn confirm_breakpoint(&mut self, address: u64, programmed: bool) -> (r: Result<
        (),
        EngineError,
    >)
        requires
            old(self).wf(),
        ensures
            final(self).wf(),
            final(self).slot_count == old(self).slot_count,
            final(self).watchpoints == old(self).watchpoints,
            match r {
                Ok(_) => {
                    let i = bp_index_of(old(self).breakpoints@, address);
                    &&& bp_has_addr(old(self).breakpoints@, address)
                    &&& (if programmed {
                        final(self).breakpoints@ == old(self).breakpoints@.update(
                            i,
                            (BreakpointEntry {
                                address,
                                slot: old(self).breakpoints@[i].slot,
                                state: EntryState::Active,
                            }),
                        ) && final(self).slots_used@ == old(self).slots_used@
                    } else {
                        final(self).breakpoints@ == old(self).breakpoints@.remove(i)
                            && final(self).slots_used@ == old(self).slots_used@.update(
                            old(self).breakpoints@[i].slot as int,
                            false,
                        )
                    })
                },
                Err(e) => {
                    &&& e == EngineError::NotFound
                    &&& !bp_has_addr(old(self).breakpoints@, address)
                    &&& *final(self) == *old(self)
                },
            },
    {
        match self.find_bp(address) {
            None => Err(EngineError::NotFound),
            Some(i) => {
                proof {
                    let olds = old(self).breakpoints@;
                    let j = bp_index_of(olds, address);
                    assert(olds[i as int].address == address);
                    assert(olds[j].address == address);
                    assert(j == i as int);
                }
                if programmed {
                    let e = self.breakpoints[i];
                    self.breakpoints.set(
                        i,
                        BreakpointEntry { address, slot: e.slot, state: EntryState::Active },
                    );
                } else {
                    let e = self.breakpoints[i];
                    self.breakpoints.remove(i);
                    self.slots_used.set(e.slot, false);
                }
                Ok(())
            },
        }
    }

    /// Reports the hardware programming outcome for the `Requested`
    /// watchpoint at `address`, as `confirm_breakpoint` does for
    /// breakpoints.
    pub fn confirm_watchpoint(&mut self, address: u64, programmed: bool) -> (r: Result<
        (),
        EngineError,
    >)
        requires
            old(self).wf(),
        ensures
            final(self).wf(),
            final(self).slot_count == old(self).slot_count,
            final(self).breakpoints == old(self).breakpoints,
            match r {
                Ok(_) => {
                    let i = wp_index_of(old(self).watchpoints@, address);
                    let e0 = old(self).watchpoints@[i];
                    &&& wp_has_addr(old(self).watchpoints@, address)
                    &&& (if programmed {
                        final(self).watchpoints@ == old(self).watchpoints@.update(
                            i,
                            (WatchpointEntry {
                                address,
                                size: e0.size,
                                condition: e0.condition,
                                slot: e0.slot,
                                state: EntryState::Active,
                            }),
                        ) && final(self).slots_used@ == old(self).slots_used@
                    } else {
                        final(self).watchpoints@ == old(self).watchpoints@.remove(i)
                            && final(self).slots_used@ == old(self).slots_used@.update(
                            e0.slot as int,
                            false,
                        )
                    })
                },
                Err(e) => {
                    &&& e == EngineError::NotFound
                    &&& !wp_has_addr(old(self).watchpoints@, address)
                    &&& *final(self) == *old(self)
                },
            },
    {
        match self.find_wp(address) {
            None => Err(EngineError::NotFound),
            Some(i) => {
                proof {
                    let olds = old(self).watchpoints@;
                    let j = wp_index_of(olds, address);
                    assert(olds[i as int].address == address);
                    assert(olds[j].address == address);
                    assert(j == i as int);
                }
                let e = self.watchpoints[i];
                if programmed {
                    self.watchpoints.set(
                        i,
                        WatchpointEntry {
                            address,
                            size: e.size,
                            condition: e.condition,
                            slot: e.slot,
                            state: EntryState::Active,
                        },
                    );
                } else {
                    self.watchpoints.remove(i);
                    self.slots_used.set(e.slot, false);
                }
                Ok(())
            },
        }
    }

    /// Unconditionally clears every entry and frees every slot; used on
    /// session teardown so no trigger outlives its process handle.
    pub fn clear_all(&mut self)
        requires
            old(self).wf(),
        ensures
            final(self).wf(),
            final(self).slot_count == old(self).slot_count,
            final(self).breakpoints@.len() == 0,
            final(self).watchpoints@.len() == 0,
            forall|k: int| 0 <= k < final(self).slots_used@.len()
                ==> !(#[trigger] final(self).slots_used@[k]),
    {
        let fresh = Registry::new(self.slot_count);
        self.slots_used = fresh.slots_used;
        self.breakpoints = Vec::new();
        self.watchpoints = Vec::new();
    }
}

} // verus!
