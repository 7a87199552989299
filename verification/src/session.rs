//! The process session: lifecycle, gating, and teardown.
//!
//! A session owns at most one attached process at a time.  Every
//! state-changing operation checks the open handle first; once the session
//! closes, the registry is torn down, the scan domain is invalidated, and
//! every later scan or memory operation observes `ProcessDetached` rather
//! than acting on a stale handle.  The processes a session can attach to,
//! and their memory, are plain data injected at construction; the platform
//! layer that reaches real processes lives outside this crate.

use vstd::prelude::*;
use crate::error::EngineError;
use crate::mem::{MemorySpace, write_post};
use crate::region::MemoryRegion;
use crate::registry::{Registry, WatchCondition, BreakpointEntry, WatchpointEntry, EntryState, bp_has_addr, wp_has_addr, valid_watch};
use crate::scan::{Candidate, ScanOutcome, ScanState, has_addr, is_scan_hit, stored_value, survives, scan_points_from, scan_dropped_from, filter_dropped_from, SCAN_CEILING};
use crate::value::{Comparison, ValueType};
use crate::paths::{PathSearchStatus, PointerPath, results_ok, one_hop_hit, has_one_hop_path};

verus! {

/// Word width of the attached process.
#[derive(Clone, Copy, Debug, PartialEq, Eq, Structural)]
pub enum Architecture {
    Bits32,
    Bits64,
}

impl Architecture {
    /// Pointer width in bytes.
    pub open spec fn pointer_size_spec(self) -> int {
        match self {
            Architecture::Bits32 => 4,
            Architecture::Bits64 => 8,
        }
    }

    /// Pointer width in bytes.
    pub fn pointer_size(self) -> (n: usize)
        ensures
            n == self.pointer_size_spec(),
    {
        match self {
            Architecture::Bits32 => 4,
            Architecture::Bits64 => 8,
        }
    }
}

/// Lifecycle of the attached process; a closed session has no state at all.
#[derive(Clone, Copy, Debug, PartialEq, Eq, Structural)]
pub enum Lifecycle {
    Attached,
    Suspended,
}

/// A requested lifecycle change.
#[derive(Clone, Copy, Debug, PartialEq, Eq, Structural)]
pub enum StateTarget {
    Suspend,
    Resume,
}

/// One process the session could attach to.
#[derive(Clone, Debug)]
pub struct ProcessEntry {
    pub pid: u32,
    pub arch: Architecture,
    pub memory: MemorySpace,
}

/// The processes in reach of this session, keyed by process id.
#[derive(Clone, Debug)]
pub struct ProcessTable {
    pub entries: Vec<ProcessEntry>,
}

impl ProcessTable {
    /// Well-formed: memories well formed and process ids unique.
    pub open spec fn wf(self) -> bool {
        &&& (forall|i: int| 0 <= i < self.entries@.len()
                ==> (#[trigger] self.entries@[i]).memory.wf())
        &&& (forall|i: int, j: int| 0 <= i < j < self.entries@.len()
                ==> (#[trigger] self.entries@[i]).pid != (#[trigger] self.entries@[j]).pid)
    }

    /// Whether a process with this id exists.
    pub open spec fn has_pid(self, pid: u32) -> bool {
        exists|i: int| 0 <= i < self.entries@.len() && (#[trigger] self.entries@[i]).pid == pid
    }

    /// The index of the process with this id (unique when well formed).
    pub open spec fn index_of(self, pid: u32) -> int {
        choose|i: int| 0 <= i < self.entries@.len() && (#[trigger] self.entries@[i]).pid == pid
    }

    /// The index of the process with this id, if any.
    fn find(&self, pid: u32) -> (r: Option<usize>)
        requires
            self.wf(),
        ensures
            match r {
                Some(i) => i < self.entries@.len() && self.entries@[i as int].pid == pid
                    && i as int == self.index_of(pid),
                None => !self.has_pid(pid),
            },
    {
        let mut i: usize = 0;
        let n = self.entries.len();
        while i < n
            invariant
                self.wf(),
                n == self.entries@.len(),
                i <= n,
                forall|j: int| 0 <= j < i ==> (#[trigger] self.entries@[j]).pid != pid,
            decreases n - i,
        {
            if self.entries[i].pid == pid {
                proof {
                    let j = self.index_of(pid);
                    assert(self.entries@[j].pid == pid);
                    assert(j == i as int);
                }
                return Some(i);
            }
            i = i + 1;
        }
        None
    }
}

/// The state held for the one attached process.
#[derive(Clone, Debug)]
pub struct OpenProcess {
    pub pid: u32,
    pub lifecycle: Lifecycle,
    pub registry: Registry,
    pub scan: Option<ScanState>,
}

/// A process session: at most one attached process at a time, through
/// which every state-changing operation must pass.
#[derive(Clone, Debug)]
pub struct ProcessSession {
    pub world: ProcessTable,
    pub slot_count: usize,
    pub active: Option<OpenProcess>,
}

impl ProcessSession {
    /// Well-formed: the table is, and an open handle names a real process
    /// and carries a well-formed registry and scan domain.
    pub open spec fn wf(self) -> bool {
        &&& self.world.wf()
        &&& match self.active {
            Some(h) => {
                &&& self.world.has_pid(h.pid)
                &&& h.registry.wf()
                &&& h.registry.slot_count == self.slot_count
                &&& match h.scan {
                    Some(st) => st.wf(),
                    None => true,
                }
            },
            None => true,
        }
    }

    /// The open handle (meaningful only when the session is open).
    pub open spec fn handle(self) -> OpenProcess {
        self.active->Some_0
    }

    /// Whether a process is attached.
    pub open spec fn is_open(self) -> bool {
        self.active is Some
    }

    /// The attached process's memory.
    pub open spec fn active_mem(self) -> MemorySpace {
        self.world.entries@[self.world.index_of(self.handle().pid)].memory
    }

    /// The attached process's architecture.
    pub open spec fn active_arch(self) -> Architecture {
        self.world.entries@[self.world.index_of(self.handle().pid)].arch
    }

    /// A session over the given process table with `slot_count` hardware
    /// debug slots per process; nothing is attached yet.
    pub fn new(world: ProcessTable, slot_count: usize) -> (s: ProcessSession)
        requires
            world.wf(),
        ensures
            s.wf(),
            s.world == world,
            s.slot_count == slot_count,
            !s.is_open(),
    {
        ProcessSession { world, slot_count, active: None }
    }

    /// Attaches to the process `pid`.  Exactly one process may be open at a
    /// time: opening over an open handle fails with `AlreadyOpen` (an
    /// explicit close is required first, so no trigger of the previous
    /// target is silently orphaned), and an unknown id fails with
    /// `ProcessNotFound`.
    pub fn open(&mut self, pid: u32) -> (r: Result<(), EngineError>)
        requires
            old(self).wf(),
        ensures
            final(self).wf(),
            final(self).world == old(self).world,
            final(self).slot_count == old(self).slot_count,
            match r {
                Ok(_) => {
                    &&& !old(self).is_open()
                    &&& old(self).world.has_pid(pid)
                    &&& final(self).is_open()
                    &&& final(self).handle().pid == pid
                    &&& final(self).handle().lifecycle == Lifecycle::Attached
                    &&& final(self).handle().scan is None
                    &&& final(self).handle().registry.breakpoints@.len() == 0
                    &&& final(self).handle().registry.watchpoints@.len() == 0
                    &&& final(self).handle().registry.slots_used@.len()
                        == old(self).slot_count
                    &&& (forall|k: int| 0 <= k < final(self).handle().registry.slots_used@.len()
                            ==> !(#[trigger] final(self).handle().registry.slots_used@[k]))
                },
                Err(e) => *final(self) == *old(self) && (
                    if old(self).is_open() {
                        e == EngineError::AlreadyOpen
                    } else {
                        e == EngineError::ProcessNotFound && !old(self).world.has_pid(pid)
                    }
                ),
            },
    {
        if self.active.is_some() {
            return Err(EngineError::AlreadyOpen);
        }
        match self.world.find(pid) {
            None => Err(EngineError::ProcessNotFound),
            Some(_i) => {
                let registry = Registry::new(self.slot_count);
                self.active = Some(
                    OpenProcess { pid, lifecycle: Lifecycle::Attached, registry, scan: None },
                );
                Ok(())
            },
        }
    }

    /// Suspends or resumes the attached process.  Requesting the state the
    /// process is already in fails with `InvalidTransition`.
    pub fn change_state(&mut self, target: StateTarget) -> (r: Result<(), EngineError>)
        requires
            old(self).wf(),
        ensures
            final(self).wf(),
            final(self).world == old(self).world,
            final(self).slot_count == old(self).slot_count,
            match r {
                Ok(_) => {
                    &&& old(self).is_open()
                    &&& final(self).is_open()
                    &&& final(self).handle().pid == old(self).handle().pid
                    &&& final(self).handle().registry == old(self).handle().registry
                    &&& final(self).handle().scan == old(self).handle().scan
                    &&& (match target {
                        StateTarget::Suspend => old(self).handle().lifecycle == Lifecycle::Attached
                            && final(self).handle().lifecycle == Lifecycle::Suspended,
                        StateTarget::Resume => old(self).handle().lifecycle == Lifecycle::Suspended
                            && final(self).handle().lifecycle == Lifecycle::Attached,
                    })
                },
                Err(e) => *final(self) == *old(self) && (
                    if !old(self).is_open() {
                        e == EngineError::ProcessDetached
                    } else {
                        e == EngineError::InvalidTransition && (match target {
                            StateTarget::Suspend => old(self).handle().lifecycle
                                == Lifecycle::Suspended,
                            StateTarget::Resume => old(self).handle().lifecycle
                                == Lifecycle::Attached,
                        })
                    }
                ),
            },
    {
        match &mut self.active {
            None => Err(EngineError::ProcessDetached),
            Some(h) => {
                match target {
                    StateTarget::Suspend => {
                        if matches!(h.lifecycle, Lifecycle::Suspended) {
                            return Err(EngineError::InvalidTransition);
                        }
                        h.lifecycle = Lifecycle::Suspended;
                    },
                    StateTarget::Resume => {
                        if matches!(h.lifecycle, Lifecycle::Attached) {
                            return Err(EngineError::InvalidTransition);
                        }
                        h.lifecycle = Lifecycle::Attached;
                    },
                }
                Ok(())
            },
        }
    }

    /// Detaches: tears the registry down (every breakpoint and watchpoint
    /// is removed) and invalidates the active scan and any cached layout.
    /// Idempotent — closing a closed session is a no-op.
    pub fn close(&mut self)
        requires
            old(self).wf(),
        ensures
            final(self).wf(),
            final(self).world == old(self).world,
            final(self).slot_count == old(self).slot_count,
            !final(self).is_open(),
    {
        match &mut self.active {
            None => {},
            Some(h) => {
                h.registry.clear_all();
                h.scan = None;
            },
        }
        self.active = None;
    }

    /// The memory layout of the attached process: regions ordered by base
    /// address, non-overlapping.  This is a snapshot of the moment called;
    /// it is never refreshed behind the caller's back.
    pub fn enumerate_regions(&self) -> (r: Result<Vec<MemoryRegion>, EngineError>)
        requires
            self.wf(),
        ensures
            match r {
                Ok(v) => self.is_open() && v@ == self.active_mem().catalog(),
                Err(e) => e == EngineError::RegionEnumerationFailed && !self.is_open(),
            },
    {
        match &self.active {
            None => Err(EngineError::RegionEnumerationFailed),
            Some(h) => {
                let i = match self.world.find(h.pid) {
                    Some(i) => i,
                    None => {
                        proof {
                            assert(false);
                        }
                        return Err(EngineError::RegionEnumerationFailed);
                    },
                };
                let m = &self.world.entries[i].memory;
                let mut v: Vec<MemoryRegion> = Vec::new();
                let n = m.regions.len();
                let mut k: usize = 0;
                while k < n
                    invariant
                        n == m.regions@.len(),
                        k <= n,
                        v@.len() == k,
                        forall|j: int| 0 <= j < k ==> v@[j] == m.catalog()[j],
                    decreases n - k,
                {
                    v.push(m.regions[k].region);
                    k = k + 1;
                }
                proof {
                    assert(v@ =~= m.catalog());
                }
                Ok(v)
            },
        }
    }

    /// Reads `len` bytes of the attached process's memory.
    pub fn read_memory(&self, addr: u64, len: usize) -> (r: Result<Vec<u8>, EngineError>)
        requires
            self.wf(),
        ensures
            match r {
                Ok(v) => {
                    &&& self.is_open()
                    &&& self.active_mem().can_read(addr as int, len as int)
                    &&& v@ == self.active_mem().read_spec(addr as int, len as int)
                },
                Err(e) => {
                    if !self.is_open() {
                        e == EngineError::ProcessDetached
                    } else {
                        e == EngineError::ReadFailed && !self.active_mem().can_read(
                            addr as int,
                            len as int,
                        )
                    }
                },
            },
    {
        match &self.active {
            None => Err(EngineError::ProcessDetached),
            Some(h) => {
                let i = match self.world.find(h.pid) {
                    Some(i) => i,
                    None => {
                        proof {
                            assert(false);
                        }
                        return Err(EngineError::ProcessDetached);
                    },
                };
                match self.world.entries[i].memory.read_bytes(addr, len) {
                    Some(v) => Ok(v),
                    None => Err(EngineError::ReadFailed),
                }
            },
        }
    }

    /// Writes `data` into the attached process's memory.  A write that
    /// cannot be carried out fails with `WriteFailed` and changes nothing —
    /// writes are never silently dropped.
    #[verifier::rlimit(100)]
    pub fn write_memory(&mut self, addr: u64, data: &Vec<u8>) -> (r: Result<(), EngineError>)
        requires
            old(self).wf(),
        ensures
            final(self).wf(),
            final(self).slot_count == old(self).slot_count,
            final(self).active == old(self).active,
            match r {
                Ok(_) => {
                    &&& old(self).is_open()
                    &&& old(self).active_mem().can_write(addr as int, data@.len() as int)
                    &&& write_post(old(self).active_mem(), final(self).active_mem(), addr, data@)
                    &&& final(self).world.entries@.len() == old(self).world.entries@.len()
                    &&& (forall|j: int| 0 <= j < old(self).world.entries@.len()
                            && j != old(self).world.index_of(old(self).handle().pid)
                            ==> #[trigger] final(self).world.entries@[j]
                                == old(self).world.entries@[j])
                    &&& final(self).active_arch() == old(self).active_arch()
                },
                Err(e) => {
                    &&& final(self).world.entries@ == old(self).world.entries@
                    &&& (if !old(self).is_open() {
                        e == EngineError::ProcessDetached
                    } else {
                        e == EngineError::WriteFailed && !old(self).active_mem().can_write(
                            addr as int,
                            data@.len() as int,
                        )
                    })
                },
            },
    {
        let pid = match &self.active {
            None => {
                return Err(EngineError::ProcessDetached);
            },
            Some(h) => h.pid,
        };
        let i = match self.world.find(pid) {
            Some(i) => i,
            None => {
                proof {
                    assert(false);
                }
                return Err(EngineError::ProcessDetached);
            },
        };
        let ghost t0 = self.world;
        let ok = table_write(&mut self.world, i, addr, data);
        proof {
            lemma_table_update(t0, self.world, i as int);
        }
        if !ok {
            return Err(EngineError::WriteFailed);
        }
        Ok(())
    }
}

/// Writes into the memory of table entry `i`, leaving every other entry and
/// the entry's identity untouched.
#[verifier::rlimit(100)]
fn table_write(t: &mut ProcessTable, i: usize, addr: u64, data: &Vec<u8>) -> (ok: bool)
    requires
        old(t).wf(),
        i < old(t).entries@.len(),
    ensures
        final(t).entries@.len() == old(t).entries@.len(),
        final(t).entries@ == old(t).entries@.update(i as int, final(t).entries@[i as int]),
        final(t).entries@[i as int].pid == old(t).entries@[i as int].pid,
        final(t).entries@[i as int].arch == old(t).entries@[i as int].arch,
        final(t).entries@[i as int].memory.wf(),
        forall|j: int| 0 <= j < old(t).entries@.len() && j != i
            ==> #[trigger] final(t).entries@[j] == old(t).entries@[j],
        ok == old(t).entries@[i as int].memory.can_write(addr as int, data@.len() as int),
        ok ==> write_post(
            old(t).entries@[i as int].memory,
            final(t).entries@[i as int].memory,
            addr,
            data@,
        ),
        !ok ==> final(t).entries@ == old(t).entries@,
{
    let ghost e0 = t.entries@;
    let mut entry = t.entries.remove(i);
    let ok = entry.memory.write_bytes(addr, data);
    t.entries.insert(i, entry);
    proof {
        assert(t.entries@ =~= e0.update(i as int, t.entries@[i as int]));
        if !ok {
            assert(t.entries@ =~= e0);
        }
    }
    ok
}

impl ProcessSession {
    /// Starts a first scan over the attached process's memory, discarding
    /// and replacing any prior candidate set: one active scan domain per
    /// session.  A zero stride is rejected with `InvalidAlignment`; an
    /// oversized scan fails with `ScanTooLarge` and leaves the prior
    /// domain in place.
    pub fn start_scan(
        &mut self,
        value_type: ValueType,
        comparison: Comparison,
        alignment: u64,
    ) -> (r: Result<ScanOutcome, EngineError>)
        requires
            old(self).wf(),
        ensures
            final(self).wf(),
            final(self).world == old(self).world,
            final(self).slot_count == old(self).slot_count,
            match r {
                Ok(out) => {
                    &&& old(self).is_open()
                    &&& alignment >= 1
                    &&& final(self).is_open()
                    &&& final(self).handle().pid == old(self).handle().pid
                    &&& final(self).handle().lifecycle == old(self).handle().lifecycle
                    &&& final(self).handle().registry == old(self).handle().registry
                    &&& final(self).handle().scan is Some
                    &&& ({
                        let st = final(self).handle().scan->Some_0;
                        let m = old(self).active_mem();
                        &&& st.value_type == value_type
                        &&& st.alignment == alignment
                        &&& (forall|k: int| #![trigger st.candidates@[k]]
                            0 <= k < st.candidates@.len() ==> {
                            let c = st.candidates@[k];
                            &&& is_scan_hit(m, value_type, comparison, alignment, c.addr as int)
                            &&& c.value == stored_value(m, value_type, c.addr as int)
                            &&& c.prev_value is None
                        })
                        &&& (forall|a: u64| is_scan_hit(m, value_type, comparison, alignment, a as int)
                                ==> has_addr(st.candidates@, a))
                        &&& out.candidate_count == st.candidates@.len()
                        &&& out.dropped_reads == scan_dropped_from(
                            m,
                            value_type.size_spec() as int,
                            alignment as int,
                            0,
                        )
                    })
                },
                Err(e) => *final(self) == *old(self) && (
                    if !old(self).is_open() {
                        e == EngineError::ProcessDetached
                    } else if alignment == 0 {
                        e == EngineError::InvalidAlignment
                    } else {
                        e == EngineError::ScanTooLarge && scan_points_from(
                            old(self).active_mem(),
                            alignment as int,
                            0,
                        ) > SCAN_CEILING
                    }
                ),
            },
    {
        let pid = match &self.active {
            None => {
                return Err(EngineError::ProcessDetached);
            },
            Some(h) => h.pid,
        };
        if alignment == 0 {
            return Err(EngineError::InvalidAlignment);
        }
        let i = match self.world.find(pid) {
            Some(i) => i,
            None => {
                proof {
                    assert(false);
                }
                return Err(EngineError::ProcessDetached);
            },
        };
        let outcome = ScanState::start_scan(
            &self.world.entries[i].memory,
            value_type,
            comparison,
            alignment,
        );
        match outcome {
            Err(e) => Err(e),
            Ok((st, out)) => {
                match &mut self.active {
                    None => Err(EngineError::ProcessDetached),
                    Some(h) => {
                        h.scan = Some(st);
                        Ok(out)
                    },
                }
            },
        }
    }

    /// A filter round over the current candidates: the set can only narrow.
    /// After a close — which invalidates the scan domain with everything
    /// else — this fails with `ProcessDetached`; with a session open but no
    /// scan started, with `NotFound`.
    pub fn filter_scan(&mut self, comparison: Comparison) -> (r: Result<ScanOutcome, EngineError>)
        requires
            old(self).wf(),
        ensures
            final(self).wf(),
            final(self).world == old(self).world,
            final(self).slot_count == old(self).slot_count,
            match r {
                Ok(out) => {
                    &&& old(self).is_open()
                    &&& old(self).handle().scan is Some
                    &&& final(self).is_open()
                    &&& final(self).handle().pid == old(self).handle().pid
                    &&& final(self).handle().lifecycle == old(self).handle().lifecycle
                    &&& final(self).handle().registry == old(self).handle().registry
                    &&& final(self).handle().scan is Some
                    &&& ({
                        let st0 = old(self).handle().scan->Some_0;
                        let st1 = final(self).handle().scan->Some_0;
                        let m = old(self).active_mem();
                        &&& st1.value_type == st0.value_type
                        &&& st1.alignment == st0.alignment
                        &&& (forall|j: int| #![trigger st1.candidates@[j]]
                            0 <= j < st1.candidates@.len()
                            ==> exists|k: int| 0 <= k < st0.candidates@.len() && {
                                let c0 = #[trigger] st0.candidates@[k];
                                let c1 = st1.candidates@[j];
                                &&& c1.addr == c0.addr
                                &&& survives(m, st0.value_type, comparison, c0)
                                &&& c1.value == stored_value(m, st0.value_type, c0.addr as int)
                                &&& c1.prev_value == Some(c0.value)
                            })
                        &&& (forall|k: int| 0 <= k < st0.candidates@.len()
                                && survives(m, st0.value_type, comparison, #[trigger] st0.candidates@[k])
                                ==> has_addr(st1.candidates@, st0.candidates@[k].addr))
                        &&& (forall|a: u64| has_addr(st1.candidates@, a)
                                ==> has_addr(st0.candidates@, a))
                        &&& out.candidate_count == st1.candidates@.len()
                        &&& out.dropped_reads == filter_dropped_from(m, st0.value_type, st0.candidates@, 0)
                    })
                },
                Err(e) => *final(self) == *old(self) && (
                    if !old(self).is_open() {
                        e == EngineError::ProcessDetached
                    } else {
                        e == EngineError::NotFound && old(self).handle().scan is None
                    }
                ),
            },
    {
        let pid = match &self.active {
            None => {
                return Err(EngineError::ProcessDetached);
            },
            Some(h) => {
                if h.scan.is_none() {
                    return Err(EngineError::NotFound);
                }
                h.pid
            },
        };
        let i = match self.world.find(pid) {
            Some(i) => i,
            None => {
                proof {
                    assert(false);
                }
                return Err(EngineError::ProcessDetached);
            },
        };
        match &mut self.active {
            None => Err(EngineError::ProcessDetached),
            Some(h) => {
                match &mut h.scan {
                    None => Err(EngineError::NotFound),
                    Some(st) => {
                        let out = st.filter_scan(&self.world.entries[i].memory, comparison);
                        Ok(out)
                    },
                }
            },
        }
    }

    /// Discovers pointer paths to `target` against the attached process's
    /// memory; see the path finder for the search's shape and bounds.
    pub fn find_paths(
        &self,
        target: u64,
        max_depth: usize,
        max_offset: u64,
        max_results: usize,
        budget: u64,
    ) -> (r: Result<(Vec<PointerPath>, PathSearchStatus), EngineError>)
        requires
            self.wf(),
        ensures
            match r {
                Ok(p) => {
                    &&& self.is_open()
                    &&& p.0@.len() <= max_results
                    &&& results_ok(
                        self.active_mem(),
                        self.active_arch().pointer_size_spec(),
                        p.0@,
                        target,
                        max_offset,
                        max_depth as int,
                    )
                    &&& (max_depth <= 1 ==> p.1 == PathSearchStatus::Complete)
                    &&& (p.0@.len() < max_results && max_depth >= 1
                        ==> forall|k: int, o: u64| one_hop_hit(
                            self.active_mem(),
                            self.active_arch().pointer_size_spec(),
                            target,
                            max_offset,
                            k,
                            o,
                        ) ==> has_one_hop_path(p.0@, self.active_mem().catalog()[k].base, o))
                },
                Err(e) => e == EngineError::ProcessDetached && !self.is_open(),
            },
    {
        let pid = match &self.active {
            None => {
                return Err(EngineError::ProcessDetached);
            },
            Some(h) => h.pid,
        };
        let i = match self.world.find(pid) {
            Some(i) => i,
            None => {
                proof {
                    assert(false);
                }
                return Err(EngineError::ProcessDetached);
            },
        };
        let psz = self.world.entries[i].arch.pointer_size();
        let (paths, status) = crate::paths::find_paths(
            &self.world.entries[i].memory,
            psz,
            target,
            max_depth,
            max_offset,
            max_results,
            budget,
        );
        Ok((paths, status))
    }
}

impl ProcessSession {
    /// Installs a hardware execution breakpoint at `address`.  In this
    /// in-memory model the hardware write always succeeds, so the entry is
    /// confirmed `Active` at once; against a real target the registry's
    /// two-phase protocol reports the programming outcome instead.
    #[verifier::rlimit(100)]
    pub fn set_breakpoint(&mut self, address: u64) -> (r: Result<usize, EngineError>)
        requires
            old(self).wf(),
        ensures
            final(self).wf(),
            final(self).world == old(self).world,
            final(self).slot_count == old(self).slot_count,
            match r {
                Ok(slot) => {
                    &&& old(self).is_open()
                    &&& final(self).is_open()
                    &&& final(self).handle().pid == old(self).handle().pid
                    &&& final(self).handle().lifecycle == old(self).handle().lifecycle
                    &&& final(self).handle().scan == old(self).handle().scan
                    &&& !bp_has_addr(old(self).handle().registry.breakpoints@, address)
                    &&& final(self).handle().registry.breakpoints@
                        == old(self).handle().registry.breakpoints@.push(
                        (BreakpointEntry { address, slot, state: EntryState::Active }),
                    )
                    &&& final(self).handle().registry.watchpoints
                        == old(self).handle().registry.watchpoints
                },
                Err(e) => *final(self) == *old(self) && (
                    if !old(self).is_open() {
                        e == EngineError::ProcessDetached
                    } else if bp_has_addr(old(self).handle().registry.breakpoints@, address) {
                        e == EngineError::AddressInUse
                    } else {
                        e == EngineError::NoFreeSlot
                            && old(self).handle().registry.all_slots_used()
                    }
                ),
            },
    {
        match &mut self.active {
            None => Err(EngineError::ProcessDetached),
            Some(h) => {
                let ghost bps0 = h.registry.breakpoints@;
                let slot = match h.registry.set_breakpoint(address) {
                    Err(e) => {
                        return Err(e);
                    },
                    Ok(slot) => slot,
                };
                let confirmed = h.registry.confirm_breakpoint(address, true);
                proof {
                    let pushed = bps0.push(
                        BreakpointEntry { address, slot, state: EntryState::Requested },
                    );
                    assert(pushed[bps0.len() as int].address == address);
                    if confirmed is Err {
                        assert(false);
                    }
                    let j = crate::registry::bp_index_of(pushed, address);
                    assert(pushed[j].address == address);
                    if j < bps0.len() {
                        assert(bps0[j].address == address);
                        assert(false);
                    }
                    assert(j == bps0.len());
                    assert(pushed.update(j, BreakpointEntry { address, slot, state: EntryState::Active })
                        =~= bps0.push(BreakpointEntry { address, slot, state: EntryState::Active }));
                }
                Ok(slot)
            },
        }
    }

    /// Installs a hardware data watchpoint: `size` must be a power of two
    /// no larger than the platform maximum and `address` aligned to it, or
    /// the call fails with `InvalidAlignment` before any slot is touched.
    /// As with breakpoints, the in-memory model confirms the entry at once.
    #[verifier::rlimit(100)]
    pub fn set_watchpoint(&mut self, address: u64, size: u64, condition: WatchCondition) -> (r:
        Result<usize, EngineError>)
        requires
            old(self).wf(),
        ensures
            final(self).wf(),
            final(self).world == old(self).world,
            final(self).slot_count == old(self).slot_count,
            match r {
                Ok(slot) => {
                    &&& old(self).is_open()
                    &&& final(self).is_open()
                    &&& final(self).handle().pid == old(self).handle().pid
                    &&& final(self).handle().lifecycle == old(self).handle().lifecycle
                    &&& final(self).handle().scan == old(self).handle().scan
                    &&& valid_watch(address, size)
                    &&& !wp_has_addr(old(self).handle().registry.watchpoints@, address)
                    &&& final(self).handle().registry.watchpoints@
                        == old(self).handle().registry.watchpoints@.push(
                        (WatchpointEntry { address, size, condition, slot, state: EntryState::Active }),
                    )
                    &&& final(self).handle().registry.breakpoints
                        == old(self).handle().registry.breakpoints
                },
                Err(e) => *final(self) == *old(self) && (
                    if !old(self).is_open() {
                        e == EngineError::ProcessDetached
                    } else if !valid_watch(address, size) {
                        e == EngineError::InvalidAlignment
                    } else if wp_has_addr(old(self).handle().registry.watchpoints@, address) {
                        e == EngineError::AddressInUse
                    } else {
                        e == EngineError::NoFreeSlot
                            && old(self).handle().registry.all_slots_used()
                    }
                ),
            },
    {
        match &mut self.active {
            None => Err(EngineError::ProcessDetached),
            Some(h) => {
                let ghost wps0 = h.registry.watchpoints@;
                let slot = match h.registry.set_watchpoint(address, size, condition) {
                    Err(e) => {
                        return Err(e);
                    },
                    Ok(slot) => slot,
                };
                let confirmed = h.registry.confirm_watchpoint(address, true);
                proof {
                    let pushed = wps0.push(
                        WatchpointEntry { address, size, condition, slot, state: EntryState::Requested },
                    );
                    assert(pushed[wps0.len() as int].address == address);
                    if confirmed is Err {
                        assert(false);
                    }
                    let j = crate::registry::wp_index_of(pushed, address);
                    assert(pushed[j].address == address);
                    if j < wps0.len() {
                        assert(wps0[j].address == address);
                        assert(false);
                    }
                    assert(j == wps0.len());
                    assert(pushed.update(
                        j,
                        WatchpointEntry { address, size, condition, slot, state: EntryState::Active },
                    ) =~= wps0.push(
                        WatchpointEntry { address, size, condition, slot, state: EntryState::Active },
                    ));
                }
                Ok(slot)
            },
        }
    }

    /// Removes the breakpoint at `address` and frees its hardware slot.
    /// Idempotent in effect: an absent address reports `NotFound` without
    /// side effect.
    pub fn remove_breakpoint(&mut self, address: u64) -> (r: Result<(), EngineError>)
        requires
            old(self).wf(),
        ensures
            final(self).wf(),
            final(self).world == old(self).world,
            final(self).slot_count == old(self).slot_count,
            match r {
                Ok(_) => {
                    &&& old(self).is_open()
                    &&& final(self).is_open()
                    &&& final(self).handle().pid == old(self).handle().pid
                    &&& final(self).handle().lifecycle == old(self).handle().lifecycle
                    &&& final(self).handle().scan == old(self).handle().scan
                    &&& bp_has_addr(old(self).handle().registry.breakpoints@, address)
                    &&& final(self).handle().registry.breakpoints@
                        == old(self).handle().registry.breakpoints@.remove(
                        crate::registry::bp_index_of(old(self).handle().registry.breakpoints@, address),
                    )
                    &&& final(self).handle().registry.watchpoints
                        == old(self).handle().registry.watchpoints
                },
                Err(e) => *final(self) == *old(self) && (
                    if !old(self).is_open() {
                        e == EngineError::ProcessDetached
                    } else {
                        e == EngineError::NotFound
                            && !bp_has_addr(old(self).handle().registry.breakpoints@, address)
                    }
                ),
            },
    {
        match &mut self.active {
            None => Err(EngineError::ProcessDetached),
            Some(h) => h.registry.remove_breakpoint(address),
        }
    }

    /// Removes the watchpoint at `address` and frees its hardware slot; an
    /// absent address reports `NotFound` without side effect.
    pub fn remove_watchpoint(&mut self, address: u64) -> (r: Result<(), EngineError>)
        requires
            old(self).wf(),
        ensures
            final(self).wf(),
            final(self).world == old(self).world,
            final(self).slot_count == old(self).slot_count,
            match r {
                Ok(_) => {
                    &&& old(self).is_open()
                    &&& final(self).is_open()
                    &&& final(self).handle().pid == old(self).handle().pid
                    &&& final(self).handle().lifecycle == old(self).handle().lifecycle
                    &&& final(self).handle().scan == old(self).handle().scan
                    &&& wp_has_addr(old(self).handle().registry.watchpoints@, address)
                    &&& final(self).handle().registry.watchpoints@
                        == old(self).handle().registry.watchpoints@.remove(
                        crate::registry::wp_index_of(old(self).handle().registry.watchpoints@, address),
                    )
                    &&& final(self).handle().registry.breakpoints
                        == old(self).handle().registry.breakpoints
                },
                Err(e) => *final(self) == *old(self) && (
                    if !old(self).is_open() {
                        e == EngineError::ProcessDetached
                    } else {
                        e == EngineError::NotFound
                            && !wp_has_addr(old(self).handle().registry.watchpoints@, address)
                    }
                ),
            },
    {
        match &mut self.active {
            None => Err(EngineError::ProcessDetached),
            Some(h) => h.registry.remove_watchpoint(address),
        }
    }

    /// How many breakpoints the open session holds; zero when closed.
    pub fn breakpoint_count(&self) -> (n: usize)
        ensures
            n == if self.is_open() { self.handle().registry.breakpoints@.len() } else { 0nat },
    {
        match &self.active {
            None => 0,
            Some(h) => h.registry.breakpoints.len(),
        }
    }

    /// How many watchpoints the open session holds; zero when closed.
    pub fn watchpoint_count(&self) -> (n: usize)
        ensures
            n == if self.is_open() { self.handle().registry.watchpoints@.len() } else { 0nat },
    {
        match &self.active {
            None => 0,
            Some(h) => h.registry.watchpoints.len(),
        }
    }

    /// How many candidates the active scan domain holds; zero when no scan
    /// domain is active.
    pub fn candidate_count(&self) -> (n: usize)
        ensures
            n == if self.is_open() && self.handle().scan is Some {
                (self.handle().scan->Some_0).candidates@.len()
            } else {
                0nat
            },
    {
        match &self.active {
            None => 0,
            Some(h) => match &h.scan {
                None => 0,
                Some(st) => st.candidates.len(),
            },
        }
    }

    /// The candidate at index `k` of the active scan domain, for callers
    /// that page through results.
    pub fn candidate_at(&self, k: usize) -> (r: Option<Candidate>)
        ensures
            match r {
                Some(c) => self.is_open() && self.handle().scan is Some
                    && k < (self.handle().scan->Some_0).candidates@.len()
                    && c == (self.handle().scan->Some_0).candidates@[k as int],
                None => !(self.is_open() && self.handle().scan is Some
                    && k < (self.handle().scan->Some_0).candidates@.len()),
            },
    {
        match &self.active {
            None => None,
            Some(h) => match &h.scan {
                None => None,
                Some(st) => {
                    if k < st.candidates.len() {
                        Some(st.candidates[k])
                    } else {
                        None
                    }
                },
            },
        }
    }
}

/// Round trip at the session boundary: immediately after a successful
/// write of `data` at `addr`, a read of `data.len()` bytes at `addr`
/// returns exactly `data`, absent external mutation in between.  The first
/// two premises are what a successful `write_memory` ensures; the last says
/// the written window is also readable.
pub proof fn lemma_session_write_read_round_trip(
    s0: ProcessSession,
    s1: ProcessSession,
    addr: u64,
    data: Seq<u8>,
)
    requires
        s0.is_open(),
        write_post(s0.active_mem(), s1.active_mem(), addr, data),
        s1.active_mem().can_read(addr as int, data.len() as int),
    ensures
        s1.active_mem().read_spec(addr as int, data.len() as int) =~= data,
{
    crate::mem::lemma_write_read_round_trip(s0.active_mem(), s1.active_mem(), addr, data);
}

/// Replacing one table entry by an entry with the same process id and a
/// well-formed memory keeps the table well formed, keeps every other entry,
/// and keeps the id's index.
proof fn lemma_table_update(t0: ProcessTable, t1: ProcessTable, i: int)
    requires
        t0.wf(),
        0 <= i < t0.entries@.len(),
        t1.entries@ == t0.entries@.update(i, t1.entries@[i]),
        t1.entries@[i].pid == t0.entries@[i].pid,
        t1.entries@[i].memory.wf(),
    ensures
        t1.wf(),
        t1.entries@.len() == t0.entries@.len(),
        t1.index_of(t0.entries@[i].pid) == i,
        t0.index_of(t0.entries@[i].pid) == i,
        t1.has_pid(t0.entries@[i].pid),
        forall|j: int| 0 <= j < t0.entries@.len() && j != i
            ==> #[trigger] t1.entries@[j] == t0.entries@[j],
{
    let pid = t0.entries@[i].pid;
    assert forall|a: int, b: int| 0 <= a < b < t1.entries@.len()
        implies (#[trigger] t1.entries@[a]).pid != (#[trigger] t1.entries@[b]).pid by {
        assert(t0.entries@[a].pid != t0.entries@[b].pid);
    }
    assert(t1.entries@[i].pid == pid);
    let j1 = t1.index_of(pid);
    assert(t1.entries@[j1].pid == pid);
    assert(j1 == i);
    let j0 = t0.index_of(pid);
    assert(t0.entries@[j0].pid == pid);
    assert(j0 == i);
}

} // verus!
