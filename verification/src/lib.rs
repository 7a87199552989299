//! Core engine of a live-process memory inspection tool.
//!
//! A session attaches to one process at a time, scans its address space for
//! values matching a predicate, narrows the candidate set across filter
//! rounds, discovers static pointer paths to a target address, and manages a
//! small registry of hardware breakpoints and watchpoints.  Process memory is
//! modelled as plain data held by the session, so every rule of the engine is
//! stated and proved here; the platform syscalls that reach a real process sit
//! outside this crate.

pub mod error;
pub mod region;
pub mod mem;
pub mod value;
pub mod scan;
pub mod paths;
pub mod registry;
pub mod session;
