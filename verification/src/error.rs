//! Error taxonomy of the engine.

use vstd::prelude::*;

verus! {

/// Every failure an engine operation can surface to its caller.
///
/// Per-address read failures during a scan are absorbed locally (the address
/// is dropped and counted), so they never appear here; `ReadFailed` is
/// reserved for a direct memory read request that cannot be satisfied.
#[derive(Clone, Copy, Debug, PartialEq, Eq, Structural)]
pub enum EngineError {
    /// The requested process id does not exist.
    ProcessNotFound,
    /// A process handle is already active; it must be closed first.
    AlreadyOpen,
    /// The operation was invoked against a closed or invalidated handle.
    ProcessDetached,
    /// The process is already in the requested lifecycle state.
    InvalidTransition,
    /// The memory layout of the process could not be enumerated.
    RegionEnumerationFailed,
    /// A direct memory read request could not be satisfied.
    ReadFailed,
    /// A memory write request could not be satisfied; writes are never
    /// silently dropped.
    WriteFailed,
    /// A first scan would examine more addresses than the fixed ceiling.
    ScanTooLarge,
    /// Every hardware debug slot is occupied.
    NoFreeSlot,
    /// A watchpoint size is not a supported power of two, or its address is
    /// not aligned to that size.
    InvalidAlignment,
    /// The address already carries an entry of the requested kind.
    AddressInUse,
    /// No breakpoint or watchpoint is registered at the address, or no scan
    /// domain is active.
    NotFound,
}

} // verus!
