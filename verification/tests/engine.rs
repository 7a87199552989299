use memscan::error::EngineError;
use memscan::mem::{MemorySpace, RegionData};
use memscan::paths::PathSearchStatus;
use memscan::region::{MemoryRegion, RegionKind};
use memscan::registry::{EntryState, Registry, WatchCondition};
use memscan::scan::{Candidate, ScanState};
use memscan::session::{
    Architecture, Lifecycle, ProcessEntry, ProcessSession, ProcessTable, StateTarget,
};
use memscan::value::{Comparison, ValueType};

fn region(base: u64, size: u64, kind: RegionKind, readable: bool, writable: bool) -> RegionData {
    RegionData {
        region: MemoryRegion {
            base,
            size,
            readable,
            writable,
            executable: false,
            kind,
        },
        bytes: vec![0u8; size as usize],
    }
}

fn put_u32(rd: &mut RegionData, offset: usize, v: u32) {
    let b = v.to_le_bytes();
    rd.bytes[offset..offset + 4].copy_from_slice(&b);
}

fn put_u64(rd: &mut RegionData, offset: usize, v: u64) {
    let b = v.to_le_bytes();
    rd.bytes[offset..offset + 8].copy_from_slice(&b);
}

fn one_process(mem: MemorySpace) -> ProcessSession {
    let table = ProcessTable {
        entries: vec![ProcessEntry { pid: 1, arch: Architecture::Bits64, memory: mem }],
    };
    ProcessSession::new(table, 4)
}

fn candidate_addrs(s: &ProcessSession) -> Vec<u64> {
    let mut v = Vec::new();
    let mut k = 0;
    while let Some(c) = s.candidate_at(k) {
        v.push(c.addr);
        k += 1;
    }
    v
}

#[test]
fn first_scan_finds_exact_matches() {
    // a synthetic region with 42 at offsets 0x10 and 0x50 and a different
    // value elsewhere yields exactly those two candidates
    let mut rd = region(0x1000, 0x100, RegionKind::Heap, true, true);
    put_u32(&mut rd, 0x10, 42);
    put_u32(&mut rd, 0x50, 42);
    put_u32(&mut rd, 0x30, 41);
    let mut s = one_process(MemorySpace { regions: vec![rd] });
    s.open(1).unwrap();
    let out = s
        .start_scan(ValueType::Int32, Comparison::Exact(42), 4)
        .unwrap();
    assert_eq!(out.candidate_count, 2);
    assert_eq!(candidate_addrs(&s), vec![0x1010, 0x1050]);
}

#[test]
fn filter_increased_and_unchanged_narrow() {
    let mut rd = region(0x1000, 0x100, RegionKind::Heap, true, true);
    put_u32(&mut rd, 0x10, 42);
    put_u32(&mut rd, 0x50, 42);
    let mut s = one_process(MemorySpace { regions: vec![rd.clone()] });
    s.open(1).unwrap();
    s.start_scan(ValueType::Int32, Comparison::Exact(42), 4).unwrap();
    // 0x10 goes 42 -> 50, 0x50 stays 42: Increased narrows to {0x10}
    s.write_memory(0x1010, &50u32.to_le_bytes().to_vec()).unwrap();
    let out = s.filter_scan(Comparison::Increased).unwrap();
    assert_eq!(out.candidate_count, 1);
    assert_eq!(candidate_addrs(&s), vec![0x1010]);

    // same transition from the original set: Unchanged narrows to {0x50}
    let mut s2 = one_process(MemorySpace { regions: vec![rd] });
    s2.open(1).unwrap();
    s2.start_scan(ValueType::Int32, Comparison::Exact(42), 4).unwrap();
    s2.write_memory(0x1010, &50u32.to_le_bytes().to_vec()).unwrap();
    let out2 = s2.filter_scan(Comparison::Unchanged).unwrap();
    assert_eq!(out2.candidate_count, 1);
    assert_eq!(candidate_addrs(&s2), vec![0x1050]);
}

#[test]
fn filter_never_grows_the_candidate_set() {
    let mut rd = region(0x2000, 0x80, RegionKind::Heap, true, true);
    put_u32(&mut rd, 0x0, 7);
    put_u32(&mut rd, 0x8, 7);
    put_u32(&mut rd, 0x20, 7);
    let mut s = one_process(MemorySpace { regions: vec![rd] });
    s.open(1).unwrap();
    s.start_scan(ValueType::Int32, Comparison::Exact(7), 4).unwrap();
    let before = candidate_addrs(&s);
    s.write_memory(0x2008, &9u32.to_le_bytes().to_vec()).unwrap();
    s.filter_scan(Comparison::Exact(7)).unwrap();
    let mid = candidate_addrs(&s);
    s.filter_scan(Comparison::InRange(0, 100)).unwrap();
    let after = candidate_addrs(&s);
    for a in &mid {
        assert!(before.contains(a));
    }
    for a in &after {
        assert!(mid.contains(a));
    }
    assert!(mid.len() <= before.len());
    assert!(after.len() <= mid.len());
    assert_eq!(mid, vec![0x2000, 0x2020]);
}

#[test]
fn find_paths_two_hop_static_chain() {
    // moduleBase+0x20 holds pointer A; A+0x8 holds the target address
    let mut module = region(0x1000, 0x100, RegionKind::Module, true, false);
    put_u64(&mut module, 0x20, 0x5000);
    let mut heap = region(0x5000, 0x100, RegionKind::Heap, true, true);
    put_u64(&mut heap, 0x8, 0x6000);
    let mut s = one_process(MemorySpace { regions: vec![module, heap] });
    s.open(1).unwrap();
    let (paths, status) = s.find_paths(0x6000, 3, 0x40, 16, 100_000).unwrap();
    assert_eq!(status, PathSearchStatus::Complete);
    assert!(!paths.is_empty());
    let best = &paths[0];
    assert!(best.static_anchor);
    assert_eq!(best.base, 0x1000);
    assert_eq!(best.offsets, vec![0x20, 0x8]);
}

#[test]
fn find_paths_single_hop_module_chain() {
    // a module word pointing straight at the target must come back as a
    // depth-one chain, and a depth-one search cannot time out
    let mut module = region(0x1000, 0x100, RegionKind::Module, true, false);
    put_u64(&mut module, 0x18, 0x6000);
    let mut s = one_process(MemorySpace { regions: vec![module] });
    s.open(1).unwrap();
    let (paths, status) = s.find_paths(0x6000, 1, 0x40, 8, 0).unwrap();
    assert_eq!(status, PathSearchStatus::Complete);
    assert!(paths
        .iter()
        .any(|p| p.static_anchor && p.base == 0x1000 && p.offsets == vec![0x18]));
}

#[test]
fn find_paths_budget_reports_timeout() {
    let mut heap = region(0x5000, 0x100, RegionKind::Heap, true, true);
    put_u64(&mut heap, 0x8, 0x6000);
    put_u64(&mut heap, 0x10, 0x5008);
    let mut s = one_process(MemorySpace { regions: vec![heap] });
    s.open(1).unwrap();
    let (_, status) = s.find_paths(0x6000, 3, 0x40, 16, 0).unwrap();
    assert_eq!(status, PathSearchStatus::PathGenerationTimeout);
}

#[test]
fn watchpoint_alignment_rejected_and_slots_exhaust() {
    let rd = region(0x1000, 0x100, RegionKind::Heap, true, true);
    let mut s = one_process(MemorySpace { regions: vec![rd] });
    s.open(1).unwrap();
    // misaligned for its size: rejected, nothing installed
    assert_eq!(
        s.set_watchpoint(0x1003, 4, WatchCondition::Write),
        Err(EngineError::InvalidAlignment)
    );
    assert_eq!(s.watchpoint_count(), 0);
    // a size that is not a power of two is rejected the same way
    assert_eq!(
        s.set_watchpoint(0x1000, 3, WatchCondition::Write),
        Err(EngineError::InvalidAlignment)
    );
    // four hardware slots: four breakpoints succeed, the fifth fails
    assert!(s.set_breakpoint(0x1010).is_ok());
    assert!(s.set_breakpoint(0x1020).is_ok());
    assert!(s.set_breakpoint(0x1030).is_ok());
    assert!(s.set_breakpoint(0x1040).is_ok());
    assert_eq!(s.set_breakpoint(0x1050), Err(EngineError::NoFreeSlot));
    assert_eq!(s.breakpoint_count(), 4);
}

#[test]
fn close_tears_down_everything() {
    let mut rd = region(0x1000, 0x100, RegionKind::Heap, true, true);
    put_u32(&mut rd, 0x10, 42);
    let mut s = one_process(MemorySpace { regions: vec![rd] });
    s.open(1).unwrap();
    s.start_scan(ValueType::Int32, Comparison::Exact(42), 4).unwrap();
    s.set_breakpoint(0x1010).unwrap();
    s.set_watchpoint(0x1020, 4, WatchCondition::ReadWrite).unwrap();
    s.close();
    // the scan domain is invalidated with the handle
    assert_eq!(s.filter_scan(Comparison::Unchanged), Err(EngineError::ProcessDetached));
    assert_eq!(s.read_memory(0x1010, 4), Err(EngineError::ProcessDetached));
    assert_eq!(s.breakpoint_count(), 0);
    assert_eq!(s.watchpoint_count(), 0);
    // closing again is a no-op
    s.close();
    // a fresh open starts with nothing registered
    s.open(1).unwrap();
    assert_eq!(s.breakpoint_count(), 0);
    assert_eq!(s.watchpoint_count(), 0);
    assert_eq!(s.candidate_count(), 0);
}

#[test]
fn write_then_read_round_trips() {
    let rd = region(0x1000, 0x100, RegionKind::Heap, true, true);
    let mut s = one_process(MemorySpace { regions: vec![rd] });
    s.open(1).unwrap();
    let payload = vec![0xDEu8, 0xAD, 0xBE, 0xEF, 0x01, 0x7F];
    s.write_memory(0x1040, &payload).unwrap();
    let back = s.read_memory(0x1040, payload.len()).unwrap();
    assert_eq!(back, payload);
}

#[test]
fn open_errors() {
    let rd = region(0x1000, 0x10, RegionKind::Heap, true, true);
    let mut s = one_process(MemorySpace { regions: vec![rd] });
    assert_eq!(s.open(99), Err(EngineError::ProcessNotFound));
    s.open(1).unwrap();
    assert_eq!(s.open(1), Err(EngineError::AlreadyOpen));
}

#[test]
fn lifecycle_transitions() {
    let rd = region(0x1000, 0x10, RegionKind::Heap, true, true);
    let mut s = one_process(MemorySpace { regions: vec![rd] });
    assert_eq!(s.change_state(StateTarget::Suspend), Err(EngineError::ProcessDetached));
    s.open(1).unwrap();
    assert_eq!(s.change_state(StateTarget::Resume), Err(EngineError::InvalidTransition));
    s.change_state(StateTarget::Suspend).unwrap();
    assert_eq!(s.change_state(StateTarget::Suspend), Err(EngineError::InvalidTransition));
    s.change_state(StateTarget::Resume).unwrap();
    assert!(matches!(s.active.as_ref().unwrap().lifecycle, Lifecycle::Attached));
}

#[test]
fn region_enumeration() {
    let a = region(0x1000, 0x100, RegionKind::Module, true, false);
    let b = region(0x5000, 0x80, RegionKind::Stack, true, true);
    let mut s = one_process(MemorySpace { regions: vec![a, b] });
    assert_eq!(
        s.enumerate_regions().unwrap_err(),
        EngineError::RegionEnumerationFailed
    );
    s.open(1).unwrap();
    let regions = s.enumerate_regions().unwrap();
    assert_eq!(regions.len(), 2);
    assert_eq!(regions[0].base, 0x1000);
    assert_eq!(regions[1].base, 0x5000);
    assert!(regions[0].base + regions[0].size <= regions[1].base);
}

#[test]
fn read_and_write_failures() {
    let mut ro = region(0x1000, 0x10, RegionKind::Module, true, false);
    put_u32(&mut ro, 0, 5);
    let mut s = one_process(MemorySpace { regions: vec![ro] });
    s.open(1).unwrap();
    assert_eq!(s.read_memory(0x9000, 4), Err(EngineError::ReadFailed));
    assert_eq!(s.read_memory(0x100E, 4), Err(EngineError::ReadFailed));
    assert_eq!(
        s.write_memory(0x1000, &vec![1, 2, 3, 4]),
        Err(EngineError::WriteFailed)
    );
    // the failed write changed nothing
    assert_eq!(s.read_memory(0x1000, 4).unwrap(), 5u32.to_le_bytes().to_vec());
}

#[test]
fn scan_too_large_rejected() {
    let rd = region(0x10000, 10_000_016, RegionKind::Heap, true, true);
    let mut s = one_process(MemorySpace { regions: vec![rd] });
    s.open(1).unwrap();
    assert_eq!(
        s.start_scan(ValueType::Int8, Comparison::Exact(0), 1),
        Err(EngineError::ScanTooLarge)
    );
    assert_eq!(
        s.start_scan(ValueType::Int32, Comparison::Exact(0), 0),
        Err(EngineError::InvalidAlignment)
    );
    // a coarser stride brings the same region under the ceiling
    assert!(s.start_scan(ValueType::Int32, Comparison::Exact(0), 4096).is_ok());
}

#[test]
fn scan_without_domain_and_absent_removals() {
    let rd = region(0x1000, 0x10, RegionKind::Heap, true, true);
    let mut s = one_process(MemorySpace { regions: vec![rd] });
    s.open(1).unwrap();
    assert_eq!(s.filter_scan(Comparison::Changed), Err(EngineError::NotFound));
    assert_eq!(s.remove_breakpoint(0x1000), Err(EngineError::NotFound));
    assert_eq!(s.remove_watchpoint(0x1000), Err(EngineError::NotFound));
}

#[test]
fn breakpoint_addresses_unique_and_removable() {
    let rd = region(0x1000, 0x100, RegionKind::Heap, true, true);
    let mut s = one_process(MemorySpace { regions: vec![rd] });
    s.open(1).unwrap();
    s.set_breakpoint(0x1010).unwrap();
    assert_eq!(s.set_breakpoint(0x1010), Err(EngineError::AddressInUse));
    s.remove_breakpoint(0x1010).unwrap();
    assert_eq!(s.breakpoint_count(), 0);
    // the slot is free again
    s.set_breakpoint(0x1010).unwrap();
    assert_eq!(s.breakpoint_count(), 1);
}

#[test]
fn registry_state_machine() {
    let mut r = Registry::new(2);
    r.set_breakpoint(0x100).unwrap();
    assert!(matches!(r.breakpoints[0].state, EntryState::Requested));
    // confirmed hardware write: Requested -> Active
    r.confirm_breakpoint(0x100, true).unwrap();
    assert!(matches!(r.breakpoints[0].state, EntryState::Active));
    // failed hardware write: the entry goes away and its slot is freed
    r.set_breakpoint(0x200).unwrap();
    r.confirm_breakpoint(0x200, false).unwrap();
    assert_eq!(r.breakpoints.len(), 1);
    r.set_watchpoint(0x300, 4, WatchCondition::Read).unwrap();
    r.confirm_watchpoint(0x300, true).unwrap();
    assert!(matches!(r.watchpoints[0].state, EntryState::Active));
    // both slots taken now
    assert_eq!(r.set_breakpoint(0x400), Err(EngineError::NoFreeSlot));
    r.clear_all();
    assert_eq!(r.breakpoints.len(), 0);
    assert_eq!(r.watchpoints.len(), 0);
    assert!(r.set_breakpoint(0x400).is_ok());
}

#[test]
fn signed_and_unsigned_decoding() {
    let mut rd = region(0x1000, 0x40, RegionKind::Heap, true, true);
    // -2 as Int32, little endian
    rd.bytes[0x0..0x4].copy_from_slice(&(-2i32).to_le_bytes());
    put_u64(&mut rd, 0x10, u64::MAX);
    rd.bytes[0x20] = 0x80; // -128 as Int8
    let mem = MemorySpace { regions: vec![rd] };
    let (st, out) = ScanState::start_scan(&mem, ValueType::Int32, Comparison::Exact(-2), 4).unwrap();
    assert_eq!(out.candidate_count, 1);
    assert_eq!(st.candidates[0].addr, 0x1000);
    assert_eq!(st.candidates[0].value, -2);
    let (st64, _) =
        ScanState::start_scan(&mem, ValueType::UInt64, Comparison::Exact(u64::MAX as i128), 8)
            .unwrap();
    assert_eq!(st64.candidates.len(), 1);
    assert_eq!(st64.candidates[0].addr, 0x1010);
    let (st8, _) =
        ScanState::start_scan(&mem, ValueType::Int8, Comparison::InRange(-128, -100), 1).unwrap();
    assert_eq!(st8.candidates.len(), 1);
    assert_eq!(st8.candidates[0].addr, 0x1020);
}

#[test]
fn dropped_reads_counted_at_region_tail() {
    // three Int32 windows fit in ten bytes at stride four; the position at
    // offset 8 has no full window and is counted as a dropped read
    let rd = region(0x1000, 10, RegionKind::Heap, true, true);
    let mem = MemorySpace { regions: vec![rd] };
    let (_, out) = ScanState::start_scan(&mem, ValueType::Int32, Comparison::Exact(0), 4).unwrap();
    assert_eq!(out.candidate_count, 2);
    assert_eq!(out.dropped_reads, 1);
}

#[test]
fn filter_trend_comparisons() {
    let mut rd = region(0x1000, 0x20, RegionKind::Heap, true, true);
    put_u32(&mut rd, 0x0, 10);
    put_u32(&mut rd, 0x4, 20);
    put_u32(&mut rd, 0x8, 30);
    let mut s = one_process(MemorySpace { regions: vec![rd] });
    s.open(1).unwrap();
    s.start_scan(ValueType::Int32, Comparison::InRange(10, 30), 4).unwrap();
    assert_eq!(s.candidate_count(), 3);
    s.write_memory(0x1000, &9u32.to_le_bytes().to_vec()).unwrap();
    s.write_memory(0x1008, &31u32.to_le_bytes().to_vec()).unwrap();
    let out = s.filter_scan(Comparison::Changed).unwrap();
    assert_eq!(out.candidate_count, 2);
    assert_eq!(candidate_addrs(&s), vec![0x1000, 0x1008]);
    // previous values carried over: 0x1000 decreased
    let out2 = s.filter_scan(Comparison::Decreased).unwrap();
    assert_eq!(out2.candidate_count, 0);
    // a decreasing transition seen across one round
    let mut s2 = one_process(MemorySpace {
        regions: vec![{
            let mut rd = region(0x1000, 0x10, RegionKind::Heap, true, true);
            put_u32(&mut rd, 0x0, 10);
            rd
        }],
    });
    s2.open(1).unwrap();
    s2.start_scan(ValueType::Int32, Comparison::Exact(10), 4).unwrap();
    s2.write_memory(0x1000, &3u32.to_le_bytes().to_vec()).unwrap();
    let out3 = s2.filter_scan(Comparison::Decreased).unwrap();
    assert_eq!(out3.candidate_count, 1);
    let c = s2.candidate_at(0).unwrap();
    assert_eq!(c.value, 3);
    assert_eq!(c.prev_value, Some(10));
}

#[test]
fn unreadable_regions_are_skipped() {
    let mut hidden = region(0x1000, 0x10, RegionKind::Anonymous, false, false);
    put_u32(&mut hidden, 0, 42);
    let mut open_r = region(0x2000, 0x10, RegionKind::Heap, true, true);
    put_u32(&mut open_r, 0, 42);
    let mem = MemorySpace { regions: vec![hidden, open_r] };
    let (st, _) = ScanState::start_scan(&mem, ValueType::Int32, Comparison::Exact(42), 4).unwrap();
    let addrs: Vec<u64> = st.candidates.iter().map(|c: &Candidate| c.addr).collect();
    assert_eq!(addrs, vec![0x2000]);
}
