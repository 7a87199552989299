//! The memory scanner: first scans and narrowing filter rounds.
//!
//! A first scan walks every readable region at a fixed stride, decodes a
//! value-sized window at each step, and retains the addresses whose value
//! satisfies the comparison as candidates.  A filter round re-reads only the
//! current candidates and keeps those that still satisfy the comparison;
//! the candidate set can only shrink, never grow.

use vstd::prelude::*;
use crate::error::EngineError;
use crate::mem::MemorySpace;
use crate::value::{
    Comparison, ValueType, decode_spec, decode_value, eval_filter, eval_first, matches_filter,
    matches_first,
};

verus! {

/// Ceiling on how many addresses a first scan may examine; a larger request
/// must narrow its alignment or region scope.
pub const SCAN_CEILING: u64 = 10_000_000;

/// One retained address: where it is, the value last observed there, and the
/// value observed the round before (for trend comparisons and display).
#[derive(Clone, Copy, Debug)]
pub struct Candidate {
    pub addr: u64,
    pub value: i128,
    pub prev_value: Option<i128>,
}

/// Counts reported by a scan or filter round.
#[derive(Clone, Copy, Debug, PartialEq, Eq, Structural)]
pub struct ScanOutcome {
    pub candidate_count: u64,
    pub dropped_reads: u64,
}

/// The active scan domain: the declared value type and stride, and the
/// ordered candidate set.
#[derive(Clone, Debug)]
pub struct ScanState {
    pub value_type: ValueType,
    pub alignment: u64,
    pub candidates: Vec<Candidate>,
}

/// The value currently stored at `a` under the scan's declared type.
#[verifier::opaque]
pub open spec fn stored_value(m: MemorySpace, vt: ValueType, a: int) -> int {
    decode_spec(vt, m.read_spec(a, vt.size_spec() as int))
}

/// Whether address `a` is a hit of a first scan: it sits in a readable
/// region at the scan stride (counted from the region base), its whole
/// window is readable, and the decoded value satisfies the comparison.
pub open spec fn is_scan_hit(
    m: MemorySpace,
    vt: ValueType,
    cmp: Comparison,
    align: u64,
    a: int,
) -> bool {
    exists|i: int| 0 <= i < m.catalog().len() && {
        let r = #[trigger] m.catalog()[i];
        &&& r.readable
        &&& r.covers(a, vt.size_spec() as int)
        &&& (a - r.base) % (align as int) == 0
        &&& matches_first(cmp, stored_value(m, vt, a))
    }
}

/// Whether candidate `c` survives a filter round: its window is still
/// readable and the freshly decoded value satisfies the comparison against
/// the value stored for it.
pub open spec fn survives(m: MemorySpace, vt: ValueType, cmp: Comparison, c: Candidate) -> bool {
    &&& m.can_read(c.addr as int, vt.size_spec() as int)
    &&& matches_filter(cmp, stored_value(m, vt, c.addr as int), c.value as int)
}

/// Whether some candidate in `s` has address `a`.
pub open spec fn has_addr(s: Seq<Candidate>, a: u64) -> bool {
    exists|k: int| 0 <= k < s.len() && (#[trigger] s[k]).addr == a
}

/// Candidates sorted strictly by address (so addresses are unique).
pub open spec fn sorted_by_addr(s: Seq<Candidate>) -> bool {
    forall|i: int, j: int| 0 <= i < j < s.len() ==> (#[trigger] s[i]).addr < (#[trigger] s[j]).addr
}

/// Number of candidates from index `k` on whose window is no longer
/// readable (these are dropped by a filter round).
#[verifier::opaque]
pub open spec fn filter_dropped_from(m: MemorySpace, vt: ValueType, s: Seq<Candidate>, k: int) -> nat
    decreases s.len() - k,
{
    if k < 0 || k >= s.len() {
        0
    } else {
        (if m.can_read(s[k].addr as int, vt.size_spec() as int) { 0nat } else { 1nat })
            + filter_dropped_from(m, vt, s, k + 1)
    }
}

/// One unfolding step of `filter_dropped_from`.
proof fn lemma_filter_dropped_unfold(m: MemorySpace, vt: ValueType, s: Seq<Candidate>, k: int)
    ensures
        filter_dropped_from(m, vt, s, k) == if 0 <= k < s.len() {
            (if m.can_read(s[k].addr as int, vt.size_spec() as int) { 0nat } else { 1nat })
                + filter_dropped_from(m, vt, s, k + 1)
        } else {
            0
        },
{
    reveal(filter_dropped_from);
}

/// Outcome of re-probing one candidate during a filter round.
enum ProbeResult {
    Kept(Candidate),
    Rejected,
    Unreadable,
}

/// Re-reads one candidate's window and judges it against the comparison.
fn probe_candidate(m: &MemorySpace, vt: ValueType, cmp: Comparison, c: Candidate) -> (r: ProbeResult)
    requires
        m.wf(),
    ensures
        match r {
            ProbeResult::Kept(c1) => {
                &&& survives(*m, vt, cmp, c)
                &&& c1.addr == c.addr
                &&& c1.value == stored_value(*m, vt, c.addr as int)
                &&& c1.prev_value == Some(c.value)
            },
            ProbeResult::Rejected => m.can_read(c.addr as int, vt.size_spec() as int)
                && !survives(*m, vt, cmp, c),
            ProbeResult::Unreadable => !m.can_read(c.addr as int, vt.size_spec() as int),
        },
{
    proof {
        reveal(stored_value);
    }
    let size = vt.size();
    match m.read_bytes(c.addr, size) {
        Some(w) => {
            let v = decode_value(vt, &w);
            if eval_filter(cmp, v, c.value) {
                ProbeResult::Kept(Candidate { addr: c.addr, value: v, prev_value: Some(c.value) })
            } else {
                ProbeResult::Rejected
            }
        },
        None => ProbeResult::Unreadable,
    }
}

impl ScanState {
    /// Well-formed: a positive stride and strictly address-sorted candidates.
    pub open spec fn wf(self) -> bool {
        &&& self.alignment >= 1
        &&& sorted_by_addr(self.candidates@)
    }

    /// A filter round: re-reads only the current candidates and keeps
    /// exactly those that still satisfy `cmp`, with their stored values
    /// refreshed.  The result is always a subset of the prior candidate set:
    /// narrowing is monotonic.  A candidate whose window became unreadable
    /// is dropped and counted, never an error.
    #[verifier::rlimit(100)]
    pub fn filter_scan(&mut self, m: &MemorySpace, cmp: Comparison) -> (out: ScanOutcome)
        requires
            m.wf(),
            old(self).wf(),
        ensures
            final(self).wf(),
            final(self).value_type == old(self).value_type,
            final(self).alignment == old(self).alignment,
            // each surviving candidate comes from the old set, satisfied the
            // comparison, and carries the freshly read value
            forall|j: int| #![trigger final(self).candidates@[j]] 0 <= j < final(self).candidates@.len()
                ==> exists|k: int| 0 <= k < old(self).candidates@.len() && {
                    let c0 = #[trigger] old(self).candidates@[k];
                    let c1 = final(self).candidates@[j];
                    &&& c1.addr == c0.addr
                    &&& survives(*m, old(self).value_type, cmp, c0)
                    &&& c1.value == stored_value(*m, old(self).value_type, c0.addr as int)
                    &&& c1.prev_value == Some(c0.value)
                },
            // every old candidate that survives is retained
            forall|k: int| 0 <= k < old(self).candidates@.len()
                && survives(*m, old(self).value_type, cmp, #[trigger] old(self).candidates@[k])
                ==> has_addr(final(self).candidates@, old(self).candidates@[k].addr),
            // monotonic narrowing: the new set is a subset of the old one
            forall|a: u64| has_addr(final(self).candidates@, a)
                ==> has_addr(old(self).candidates@, a),
            out.candidate_count == final(self).candidates@.len(),
            out.dropped_reads == filter_dropped_from(*m, old(self).value_type, old(self).candidates@, 0),
    {
        let vt_x = self.value_type;
        let ghost vt = self.value_type;
        let ghost olds = self.candidates@;
        let n = self.candidates.len();
        let mut kept: Vec<Candidate> = Vec::new();
        let ghost mut srcs: Seq<int> = Seq::empty();
        let mut dropped: u64 = 0;
        let mut k: usize = 0;
        while k < n
            invariant
                m.wf(),
                vt == self.value_type,
                vt == vt_x,
                olds == self.candidates@,
                sorted_by_addr(olds),
                n == olds.len(),
                k <= n,
                dropped <= k,
                dropped + filter_dropped_from(*m, vt, olds, k as int)
                    == filter_dropped_from(*m, vt, olds, 0),
                srcs.len() == kept@.len(),
                forall|j: int| #![trigger srcs[j]] 0 <= j < srcs.len() ==> {
                    let i = srcs[j];
                    &&& 0 <= i < k
                    &&& kept@[j].addr == olds[i].addr
                    &&& survives(*m, vt, cmp, olds[i])
                    &&& kept@[j].value == stored_value(*m, vt, olds[i].addr as int)
                    &&& kept@[j].prev_value == Some(olds[i].value)
                },
                forall|i: int| 0 <= i < k && survives(*m, vt, cmp, #[trigger] olds[i])
                    ==> has_addr(kept@, olds[i].addr),
                sorted_by_addr(kept@),
                forall|j: int, i: int|
                    0 <= j < kept@.len() && k <= i < n
                    ==> (#[trigger] kept@[j]).addr < (#[trigger] olds[i]).addr,
            decreases n - k,
        {
            let c = self.candidates[k];
            proof {
                lemma_filter_dropped_unfold(*m, vt, olds, k as int);
            }
            match probe_candidate(m, vt_x, cmp, c) {
                ProbeResult::Kept(c1) => {
                    let ghost kept0 = kept@;
                    kept.push(c1);
                    proof {
                        srcs = srcs.push(k as int);
                        assert forall|i: int| 0 <= i < k + 1
                            && survives(*m, vt, cmp, #[trigger] olds[i])
                            implies has_addr(kept@, olds[i].addr) by {
                            if i < k {
                                assert(has_addr(kept0, olds[i].addr));
                                let w0 = choose|w0: int| 0 <= w0 < kept0.len()
                                    && (#[trigger] kept0[w0]).addr == olds[i].addr;
                                assert(kept@[w0] == kept0[w0]);
                            } else {
                                assert(kept@[kept0.len() as int].addr == olds[i].addr);
                            }
                        }
                    }
                },
                ProbeResult::Rejected => {
                },
                ProbeResult::Unreadable => {
                    dropped = dropped + 1;
                },
            }
            k = k + 1;
        }
        self.candidates = kept;
        let count = self.candidates.len() as u64;
        proof {
            lemma_filter_dropped_unfold(*m, vt, olds, n as int);
            assert forall|j: int| #![trigger self.candidates@[j]] 0 <= j < self.candidates@.len()
                implies exists|i: int| 0 <= i < olds.len() && {
                    let c0 = #[trigger] olds[i];
                    let c1 = self.candidates@[j];
                    &&& c1.addr == c0.addr
                    &&& survives(*m, vt, cmp, c0)
                    &&& c1.value == stored_value(*m, vt, c0.addr as int)
                    &&& c1.prev_value == Some(c0.value)
                } by {
                let i = srcs[j];
                assert(0 <= i < olds.len() && {
                    let c0 = olds[i];
                    let c1 = self.candidates@[j];
                    &&& c1.addr == c0.addr
                    &&& survives(*m, vt, cmp, c0)
                    &&& c1.value == stored_value(*m, vt, c0.addr as int)
                    &&& c1.prev_value == Some(c0.value)
                });
            }
            assert forall|a: u64| has_addr(self.candidates@, a)
                implies has_addr(olds, a) by {
                let j = choose|j: int| 0 <= j < self.candidates@.len()
                    && (#[trigger] self.candidates@[j]).addr == a;
                assert(olds[srcs[j]].addr == a);
            }
        }
        ScanOutcome { candidate_count: count, dropped_reads: dropped }
    }
}


/// Number of stride positions of a region tail: aligned addresses from `a`
/// (inclusive, stepping by `align`) up to `end` (exclusive).
#[verifier::opaque]
pub open spec fn region_points(end: int, align: int, a: int) -> nat
    decreases (if a < end { end - a } else { 0 }) when align >= 1
{
    if align < 1 || a >= end {
        0
    } else {
        1 + region_points(end, align, a + align)
    }
}

/// Number of stride positions from `a` up to `end` whose value window of
/// `size` bytes no longer fits below `end`; these reads are dropped.
#[verifier::opaque]
pub open spec fn region_dropped(end: int, size: int, align: int, a: int) -> nat
    decreases (if a < end { end - a } else { 0 }) when align >= 1
{
    if align < 1 || a >= end {
        0
    } else {
        (if a + size > end { 1nat } else { 0nat }) + region_dropped(end, size, align, a + align)
    }
}

/// Total stride positions of the readable regions from region `i` on.
#[verifier::opaque]
pub open spec fn scan_points_from(m: MemorySpace, align: int, i: int) -> nat
    decreases m.catalog().len() - i,
{
    if i < 0 || i >= m.catalog().len() {
        0
    } else {
        (if m.catalog()[i].readable {
            region_points(m.catalog()[i].end(), align, m.catalog()[i].base as int)
        } else {
            0nat
        }) + scan_points_from(m, align, i + 1)
    }
}

/// Total dropped reads of the readable regions from region `i` on.
#[verifier::opaque]
pub open spec fn scan_dropped_from(m: MemorySpace, size: int, align: int, i: int) -> nat
    decreases m.catalog().len() - i,
{
    if i < 0 || i >= m.catalog().len() {
        0
    } else {
        (if m.catalog()[i].readable {
            region_dropped(m.catalog()[i].end(), size, align, m.catalog()[i].base as int)
        } else {
            0nat
        }) + scan_dropped_from(m, size, align, i + 1)
    }
}

/// Two addresses on the same stride grid differ by at least the stride.
pub(crate) proof fn lemma_aligned_step(base: int, align: int, a: int, p: int)
    requires
        align >= 1,
        base <= a,
        (a - base) % align == 0,
        (p - base) % align == 0,
        p > a,
    ensures
        p >= a + align,
{
    let x = a - base;
    let y = p - base;
    vstd::arithmetic::div_mod::lemma_fundamental_div_mod(x, align);
    vstd::arithmetic::div_mod::lemma_fundamental_div_mod(y, align);
    let qx = x / align;
    let qy = y / align;
    assert(x == align * qx);
    assert(y == align * qy);
    assert(qy > qx) by (nonlinear_arith)
        requires
            align >= 1,
            align * qy > align * qx,
    ;
    assert(align * qy >= align * (qx + 1)) by (nonlinear_arith)
        requires
            align >= 1,
            qy >= qx + 1,
    ;
    assert(align * (qx + 1) == align * qx + align) by (nonlinear_arith);
}

/// Stepping by the stride stays on the stride grid.
pub(crate) proof fn lemma_step_aligned(base: int, align: int, a: int)
    requires
        align >= 1,
        (a - base) % align == 0,
    ensures
        (a + align - base) % align == 0,
{
    vstd::arithmetic::div_mod::lemma_mod_multiples_vanish(1, a - base, align);
}

/// A scan hit's witness region: it is readable, covers the hit's window,
/// and holds the hit on its stride grid.  The value window has at least one
/// byte, so the witness contains the hit address itself.
proof fn lemma_hit_witness(m: MemorySpace, vt: ValueType, cmp: Comparison, align: u64, p: int)
    requires
        m.wf(),
        is_scan_hit(m, vt, cmp, align, p),
    ensures
        exists|j: int| 0 <= j < m.catalog().len() && {
            let r = #[trigger] m.catalog()[j];
            &&& r.readable
            &&& r.covers(p, vt.size_spec() as int)
            &&& r.contains(p)
            &&& (p - r.base) % (align as int) == 0
        },
{
    let j = choose|j: int| 0 <= j < m.catalog().len() && {
        let r = #[trigger] m.catalog()[j];
        &&& r.readable
        &&& r.covers(p, vt.size_spec() as int)
        &&& (p - r.base) % (align as int) == 0
        &&& matches_first(cmp, stored_value(m, vt, p))
    };
    assert(vt.size_spec() >= 1);
    assert(m.catalog()[j].contains(p));
}

/// Outcome of probing one stride position during a first scan.
enum FirstProbe {
    Hit(i128),
    Miss,
    Unreadable,
}

/// Reads and judges the window at one stride position.
fn probe_first(m: &MemorySpace, vt: ValueType, cmp: Comparison, a: u64) -> (r: FirstProbe)
    requires
        m.wf(),
    ensures
        match r {
            FirstProbe::Hit(v) => {
                &&& m.can_read(a as int, vt.size_spec() as int)
                &&& matches_first(cmp, stored_value(*m, vt, a as int))
                &&& v == stored_value(*m, vt, a as int)
            },
            FirstProbe::Miss => !matches_first(cmp, stored_value(*m, vt, a as int)),
            FirstProbe::Unreadable => !m.can_read(a as int, vt.size_spec() as int),
        },
{
    proof {
        reveal(stored_value);
    }
    let size = vt.size();
    match m.read_bytes(a, size) {
        Some(w) => {
            let v = decode_value(vt, &w);
            if eval_first(cmp, v) {
                FirstProbe::Hit(v)
            } else {
                FirstProbe::Miss
            }
        },
        None => FirstProbe::Unreadable,
    }
}


/// One unfolding step of `region_points`.
proof fn lemma_region_points_unfold(end: int, align: int, a: int)
    requires
        align >= 1,
    ensures
        region_points(end, align, a) == if a < end {
            1 + region_points(end, align, a + align)
        } else {
            0
        },
{
    reveal(region_points);
}

/// One unfolding step of `region_dropped`.
proof fn lemma_region_dropped_unfold(end: int, size: int, align: int, a: int)
    requires
        align >= 1,
    ensures
        region_dropped(end, size, align, a) == if a < end {
            (if a + size > end { 1nat } else { 0nat }) + region_dropped(end, size, align, a + align)
        } else {
            0
        },
{
    reveal(region_dropped);
}

/// One unfolding step of `scan_points_from`.
proof fn lemma_scan_points_unfold(m: MemorySpace, align: int, i: int)
    ensures
        scan_points_from(m, align, i) == if 0 <= i < m.catalog().len() {
            (if m.catalog()[i].readable {
                region_points(m.catalog()[i].end(), align, m.catalog()[i].base as int)
            } else {
                0nat
            }) + scan_points_from(m, align, i + 1)
        } else {
            0
        },
{
    reveal(scan_points_from);
}

/// One unfolding step of `scan_dropped_from`.
proof fn lemma_scan_dropped_unfold(m: MemorySpace, size: int, align: int, i: int)
    ensures
        scan_dropped_from(m, size, align, i) == if 0 <= i < m.catalog().len() {
            (if m.catalog()[i].readable {
                region_dropped(m.catalog()[i].end(), size, align, m.catalog()[i].base as int)
            } else {
                0nat
            }) + scan_dropped_from(m, size, align, i + 1)
        } else {
            0
        },
{
    reveal(scan_dropped_from);
}

/// A prefix keeps every address the shorter sequence has.
proof fn lemma_has_addr_prefix(s1: Seq<Candidate>, s2: Seq<Candidate>)
    requires
        s1.is_prefix_of(s2),
    ensures
        forall|a: u64| has_addr(s1, a) ==> has_addr(s2, a),
{
    assert forall|a: u64| has_addr(s1, a) implies has_addr(s2, a) by {
        let w = choose|w: int| 0 <= w < s1.len() && (#[trigger] s1[w]).addr == a;
        assert(s2[w].addr == a);
    }
}

/// A hit inside region `i` lies on region `i`'s stride grid and its window
/// fits the region: region `i` is the hit's (unique) witness.
#[verifier::rlimit(100)]
proof fn lemma_hit_in_region(m: MemorySpace, vt: ValueType, cmp: Comparison, alignment: u64, i: int, p: int)
    requires
        m.wf(),
        is_scan_hit(m, vt, cmp, alignment, p),
        0 <= i < m.catalog().len(),
        m.catalog()[i].contains(p),
    ensures
        (p - m.catalog()[i].base) % (alignment as int) == 0,
        m.catalog()[i].covers(p, vt.size_spec() as int),
        m.catalog()[i].readable,
{
    lemma_hit_witness(m, vt, cmp, alignment, p);
    let j = choose|j: int| 0 <= j < m.catalog().len() && {
        let r = #[trigger] m.catalog()[j];
        &&& r.readable
        &&& r.covers(p, vt.size_spec() as int)
        &&& r.contains(p)
        &&& (p - r.base) % (alignment as int) == 0
    };
    crate::region::lemma_catalog_unique(m.catalog(), j, i, p);
}

/// Once every hit of region `i` up to the stride position `a0` is retained,
/// so is every hit below `hi`, for any `hi` not beyond the next stride
/// position: there is no hit strictly between two stride positions.
proof fn lemma_scan_extend(
    m: MemorySpace,
    vt: ValueType,
    cmp: Comparison,
    alignment: u64,
    i: int,
    a0: int,
    hi: int,
    cands: Seq<Candidate>,
)
    requires
        m.wf(),
        alignment >= 1,
        0 <= i < m.catalog().len(),
        m.catalog()[i].base <= a0,
        (a0 - m.catalog()[i].base) % (alignment as int) == 0,
        hi <= a0 + alignment,
        forall|p: u64| is_scan_hit(m, vt, cmp, alignment, p as int)
            && m.catalog()[i].base <= p && (p as int) <= a0 && (p as int) < m.catalog()[i].end()
            ==> has_addr(cands, p),
    ensures
        forall|p: u64| is_scan_hit(m, vt, cmp, alignment, p as int)
            && m.catalog()[i].base <= p && (p as int) < hi && (p as int) < m.catalog()[i].end()
            ==> has_addr(cands, p),
{
    let r = m.catalog()[i];
    assert forall|p: u64| is_scan_hit(m, vt, cmp, alignment, p as int)
        && r.base <= p && (p as int) < hi && (p as int) < r.end()
        implies has_addr(cands, p) by {
        if (p as int) > a0 {
            assert(r.contains(p as int));
            lemma_hit_in_region(m, vt, cmp, alignment, i, p as int);
            lemma_aligned_step(r.base as int, alignment as int, a0, p as int);
            assert(false);
        }
    }
}

/// Once the window no longer fits below the region end, no hit remains in
/// the region at or past the current position.
#[verifier::rlimit(100)]
proof fn lemma_region_complete(
    m: MemorySpace,
    vt: ValueType,
    cmp: Comparison,
    alignment: u64,
    i: int,
    a: int,
    cands: Seq<Candidate>,
)
    requires
        m.wf(),
        alignment >= 1,
        0 <= i < m.catalog().len(),
        m.catalog()[i].end() < a + vt.size_spec(),
        forall|p: u64| is_scan_hit(m, vt, cmp, alignment, p as int)
            && m.catalog()[i].base <= p && (p as int) < a && (p as int) < m.catalog()[i].end()
            ==> has_addr(cands, p),
    ensures
        forall|p: u64| is_scan_hit(m, vt, cmp, alignment, p as int)
            && m.catalog()[i].base <= p && (p as int) < m.catalog()[i].end()
            ==> has_addr(cands, p),
{
    let r = m.catalog()[i];
    assert forall|p: u64| is_scan_hit(m, vt, cmp, alignment, p as int)
        && r.base <= p && (p as int) < r.end()
        implies has_addr(cands, p) by {
        if (p as int) >= a {
            assert(r.contains(p as int));
            lemma_hit_in_region(m, vt, cmp, alignment, i, p as int);
            assert(false);
        }
    }
}

/// Counts the stride positions of a region tail whose window passes the
/// region end; all of them are dropped reads.  Returns `false` when the
/// position count would pass the ceiling.
fn count_tail(
    end: u64,
    size64: u64,
    alignment: u64,
    a_start: u64,
    Ghost(base): Ghost<int>,
    points: &mut u64,
    dropped: &mut u64,
) -> (ok: bool)
    requires
        alignment >= 1,
        1 <= size64,
        base <= a_start,
        ((a_start - base) % (alignment as int) == 0) || a_start == end,
        end < a_start + size64,
        *old(points) <= SCAN_CEILING,
        *old(dropped) <= *old(points),
    ensures
        ok ==> {
            &&& *final(points) <= SCAN_CEILING
            &&& *final(dropped) <= *final(points)
            &&& *final(points) == *old(points)
                + region_points(end as int, alignment as int, a_start as int)
            &&& *final(dropped) == *old(dropped)
                + region_dropped(end as int, size64 as int, alignment as int, a_start as int)
        },
        !ok ==> *old(points) + region_points(end as int, alignment as int, a_start as int)
            > SCAN_CEILING,
{
    let ghost al = alignment as int;
    let ghost sz = size64 as int;
    let ghost pts0 = *points;
    let ghost drp0 = *dropped;
    let mut a = a_start;
    while a < end
        invariant
            alignment >= 1,
            al == alignment as int,
            sz == size64 as int,
            1 <= size64,
            base <= a,
            ((a - base) % al == 0) || a == end,
            end < a + size64,
            pts0 == *old(points),
            drp0 == *old(dropped),
            *points <= SCAN_CEILING,
            *dropped <= *points,
            *points + region_points(end as int, al, a as int)
                == pts0 + region_points(end as int, al, a_start as int),
            *dropped + region_dropped(end as int, sz, al, a as int)
                == drp0 + region_dropped(end as int, sz, al, a_start as int),
        decreases (if a < end { end - a } else { 0 }) as int,
    {
        proof {
            lemma_region_points_unfold(end as int, al, a as int);
            lemma_region_dropped_unfold(end as int, sz, al, a as int);
        }
        if *points == SCAN_CEILING {
            return false;
        }
        *points = *points + 1;
        *dropped = *dropped + 1;
        let ghost a0 = a as int;
        if alignment <= u64::MAX - a {
            proof {
                lemma_step_aligned(base, al, a0);
            }
            a = a + alignment;
        } else {
            proof {
                lemma_region_points_unfold(end as int, al, a0 + al);
                lemma_region_dropped_unfold(end as int, sz, al, a0 + al);
                lemma_region_points_unfold(end as int, al, end as int);
                lemma_region_dropped_unfold(end as int, sz, al, end as int);
            }
            a = end;
        }
    }
    proof {
        lemma_region_points_unfold(end as int, al, a as int);
        lemma_region_dropped_unfold(end as int, sz, al, a as int);
    }
    true
}

/// Walks one readable region at the scan stride, appending every hit to
/// `cands` and accounting examined positions and dropped reads.  Returns
/// `false` without completing when the position count would pass the
/// ceiling.
#[verifier::rlimit(100)]
fn scan_region(
    m: &MemorySpace,
    vt: ValueType,
    cmp: Comparison,
    alignment: u64,
    i: usize,
    cands: &mut Vec<Candidate>,
    points: &mut u64,
    dropped: &mut u64,
) -> (ok: bool)
    requires
        m.wf(),
        alignment >= 1,
        i < m.regions@.len(),
        m.catalog()[i as int].readable,
        *old(points) <= SCAN_CEILING,
        *old(dropped) <= *old(points),
        sorted_by_addr(old(cands)@),
        forall|k: int| 0 <= k < old(cands)@.len()
            ==> (#[trigger] old(cands)@[k]).addr < m.catalog()[i as int].base,
        forall|k: int| #![trigger old(cands)@[k]] 0 <= k < old(cands)@.len() ==> {
            let c = old(cands)@[k];
            &&& is_scan_hit(*m, vt, cmp, alignment, c.addr as int)
            &&& c.value == stored_value(*m, vt, c.addr as int)
            &&& c.prev_value is None
        },
    ensures
        old(cands)@.is_prefix_of(final(cands)@),
        ok ==> {
            let r = m.catalog()[i as int];
            &&& *final(points) <= SCAN_CEILING
            &&& *final(dropped) <= *final(points)
            &&& *final(points) == *old(points) + region_points(r.end(), alignment as int, r.base as int)
            &&& *final(dropped) == *old(dropped)
                + region_dropped(r.end(), vt.size_spec() as int, alignment as int, r.base as int)
            &&& sorted_by_addr(final(cands)@)
            &&& (forall|k: int| 0 <= k < final(cands)@.len()
                    ==> (#[trigger] final(cands)@[k]).addr < r.end())
            &&& (forall|k: int| #![trigger final(cands)@[k]] 0 <= k < final(cands)@.len() ==> {
                let c = final(cands)@[k];
                &&& is_scan_hit(*m, vt, cmp, alignment, c.addr as int)
                &&& c.value == stored_value(*m, vt, c.addr as int)
                &&& c.prev_value is None
            })
            &&& (forall|p: u64| is_scan_hit(*m, vt, cmp, alignment, p as int)
                    && r.base <= p && (p as int) < r.end() ==> has_addr(final(cands)@, p))
        },
        !ok ==> *old(points)
            + region_points(m.catalog()[i as int].end(), alignment as int, m.catalog()[i as int].base as int)
            > SCAN_CEILING,
{
    let ghost al = alignment as int;
    let ghost sz = vt.size_spec() as int;
    let ghost cands0 = old(cands)@;
    let ghost pts0 = *old(points);
    let ghost drp0 = *old(dropped);
    let size = vt.size();
    let size64 = size as u64;
    let r = m.regions[i].region;
    proof {
        assert(r == m.catalog()[i as int]);
        assert(r.wf());
        assert((r.base - r.base) % al == 0) by (nonlinear_arith)
            requires
                al >= 1,
        ;
    }
    let end = r.base + r.size;
    let mut a = r.base;
    while a < end && end - a >= size64
        invariant
            m.wf(),
            alignment >= 1,
            al == alignment as int,
            sz == vt.size_spec() as int,
            size == vt.size_spec(),
            size64 == size,
            1 <= size64 <= 8,
            i < m.regions@.len(),
            r == m.catalog()[i as int],
            r.wf(),
            r.readable,
            end == r.end(),
            r.base <= a,
            ((a - r.base) % al == 0) || a == end,
            pts0 == *old(points),
            drp0 == *old(dropped),
            cands0 == old(cands)@,
            *points <= SCAN_CEILING,
            *dropped <= *points,
            *points + region_points(r.end(), al, a as int)
                == pts0 + region_points(r.end(), al, r.base as int),
            *dropped == drp0,
            region_dropped(r.end(), sz, al, a as int) == region_dropped(r.end(), sz, al, r.base as int),
            cands0.is_prefix_of(cands@),
            sorted_by_addr(cands@),
            forall|k: int| 0 <= k < cands@.len() ==> (#[trigger] cands@[k]).addr < a,
            forall|k: int| 0 <= k < cands@.len() ==> (#[trigger] cands@[k]).addr < r.end(),
            forall|k: int| #![trigger cands@[k]] 0 <= k < cands@.len() ==> {
                let c = cands@[k];
                &&& is_scan_hit(*m, vt, cmp, alignment, c.addr as int)
                &&& c.value == stored_value(*m, vt, c.addr as int)
                &&& c.prev_value is None
            },
            forall|p: u64| is_scan_hit(*m, vt, cmp, alignment, p as int)
                && r.base <= p && (p as int) < a && (p as int) < r.end()
                ==> has_addr(cands@, p),
        decreases (if a < end { end - a } else { 0 }) as int,
    {
        proof {
            lemma_region_points_unfold(r.end(), al, a as int);
            lemma_region_dropped_unfold(r.end(), sz, al, a as int);
        }
        if *points == SCAN_CEILING {
            return false;
        }
        *points = *points + 1;
        let ghost a0 = a as int;
        match probe_first(m, vt, cmp, a) {
            FirstProbe::Hit(v) => {
                let ghost before = cands@;
                cands.push(Candidate { addr: a, value: v, prev_value: None });
                proof {
                    assert(r.covers(a0, sz));
                    assert(is_scan_hit(*m, vt, cmp, alignment, a0));
                    assert(before.is_prefix_of(cands@));
                    lemma_has_addr_prefix(before, cands@);
                    assert(cands@[before.len() as int].addr == a);
                    assert(has_addr(cands@, a));
                }
            },
            FirstProbe::Miss => {
                proof {
                    assert(!is_scan_hit(*m, vt, cmp, alignment, a0));
                }
            },
            FirstProbe::Unreadable => {
                proof {
                    if is_scan_hit(*m, vt, cmp, alignment, a0) {
                        lemma_hit_witness(*m, vt, cmp, alignment, a0);
                    }
                    assert(!is_scan_hit(*m, vt, cmp, alignment, a0));
                }
            },
        }
        proof {
            assert forall|p: u64| is_scan_hit(*m, vt, cmp, alignment, p as int)
                && r.base <= p && (p as int) <= a0 && (p as int) < r.end()
                implies has_addr(cands@, p) by {
            }
        }
        if alignment <= u64::MAX - a {
            proof {
                lemma_step_aligned(r.base as int, al, a0);
                lemma_scan_extend(*m, vt, cmp, alignment, i as int, a0, a0 + al, cands@);
            }
            a = a + alignment;
        } else {
            proof {
                lemma_scan_extend(*m, vt, cmp, alignment, i as int, a0, a0 + al, cands@);
                lemma_region_points_unfold(r.end(), al, a0 + al);
                lemma_region_dropped_unfold(r.end(), sz, al, a0 + al);
                lemma_region_points_unfold(r.end(), al, r.end());
                lemma_region_dropped_unfold(r.end(), sz, al, r.end());
            }
            a = end;
        }
    }
    proof {
        lemma_region_complete(*m, vt, cmp, alignment, i as int, a as int, cands@);
    }
    let tail_ok = count_tail(end, size64, alignment, a, Ghost(r.base as int), points, dropped);
    if !tail_ok {
        return false;
    }
    true
}
/// The lower bound of addresses still unscanned when the walk reaches
/// region `i`: everything below it has been decided.
pub open spec fn region_lb(m: MemorySpace, i: int) -> int {
    if i <= 0 {
        0
    } else {
        m.catalog()[i - 1].end()
    }
}

/// A hit below region `i`'s base already lies below the walk's bound:
/// the space between two catalog regions holds no hit.
#[verifier::rlimit(100)]
proof fn lemma_hit_below_base(m: MemorySpace, vt: ValueType, cmp: Comparison, alignment: u64, i: int, p: int)
    requires
        m.wf(),
        is_scan_hit(m, vt, cmp, alignment, p),
        0 <= i < m.catalog().len(),
        p < m.catalog()[i].base,
    ensures
        p < region_lb(m, i),
{
    lemma_hit_witness(m, vt, cmp, alignment, p);
    let j = choose|j: int| 0 <= j < m.catalog().len() && {
        let r = #[trigger] m.catalog()[j];
        &&& r.readable
        &&& r.covers(p, vt.size_spec() as int)
        &&& r.contains(p)
        &&& (p - r.base) % (alignment as int) == 0
    };
    if j >= i {
        if j > i {
            crate::region::lemma_catalog_ordered(m.catalog(), i, j);
        }
        assert(false);
    } else {
        if j < i - 1 {
            crate::region::lemma_catalog_ordered(m.catalog(), j, i - 1);
        }
    }
}

/// Every hit lies below the end of the last catalog region.
#[verifier::rlimit(100)]
proof fn lemma_hit_below_all(m: MemorySpace, vt: ValueType, cmp: Comparison, alignment: u64, p: int)
    requires
        m.wf(),
        is_scan_hit(m, vt, cmp, alignment, p),
    ensures
        p < region_lb(m, m.catalog().len() as int),
{
    lemma_hit_witness(m, vt, cmp, alignment, p);
    let j = choose|j: int| 0 <= j < m.catalog().len() && {
        let r = #[trigger] m.catalog()[j];
        &&& r.readable
        &&& r.covers(p, vt.size_spec() as int)
        &&& r.contains(p)
        &&& (p - r.base) % (alignment as int) == 0
    };
    let n = m.catalog().len() as int;
    if j < n - 1 {
        crate::region::lemma_catalog_ordered(m.catalog(), j, n - 1);
    }
}

impl ScanState {
    /// A first scan: walks every readable region of the snapshot at stride
    /// `alignment` (counted from each region's base), keeps exactly the
    /// addresses whose decoded window satisfies `comparison`, in address
    /// order, and reports the candidate and dropped-read counts.  Fails
    /// with `ScanTooLarge`, retaining nothing, when more stride positions
    /// than `SCAN_CEILING` would have to be examined.
    #[verifier::rlimit(100)]
    pub fn start_scan(
        m: &MemorySpace,
        value_type: ValueType,
        comparison: Comparison,
        alignment: u64,
    ) -> (r: Result<(ScanState, ScanOutcome), EngineError>)
        requires
            m.wf(),
            alignment >= 1,
        ensures
            match r {
                Ok(p) => {
                    let st = p.0;
                    let out = p.1;
                    &&& st.wf()
                    &&& st.value_type == value_type
                    &&& st.alignment == alignment
                    &&& scan_points_from(*m, alignment as int, 0) <= SCAN_CEILING
                    &&& (forall|k: int| #![trigger st.candidates@[k]] 0 <= k < st.candidates@.len() ==> {
                        let c = st.candidates@[k];
                        &&& is_scan_hit(*m, value_type, comparison, alignment, c.addr as int)
                        &&& c.value == stored_value(*m, value_type, c.addr as int)
                        &&& c.prev_value is None
                    })
                    &&& (forall|a: u64| is_scan_hit(*m, value_type, comparison, alignment, a as int)
                            ==> has_addr(st.candidates@, a))
                    &&& out.candidate_count == st.candidates@.len()
                    &&& out.dropped_reads == scan_dropped_from(
                        *m,
                        value_type.size_spec() as int,
                        alignment as int,
                        0,
                    )
                },
                Err(e) => {
                    &&& e == EngineError::ScanTooLarge
                    &&& scan_points_from(*m, alignment as int, 0) > SCAN_CEILING
                },
            },
    {
        let ghost al = alignment as int;
        let ghost sz = value_type.size_spec() as int;
        let n = m.regions.len();
        let mut cands: Vec<Candidate> = Vec::new();
        let mut points: u64 = 0;
        let mut dropped: u64 = 0;
        let mut i: usize = 0;
        proof {
            lemma_scan_points_unfold(*m, al, 0);
            lemma_scan_dropped_unfold(*m, sz, al, 0);
        }
        while i < n
            invariant
                m.wf(),
                alignment >= 1,
                al == alignment as int,
                sz == value_type.size_spec() as int,
                n == m.regions@.len(),
                i <= n,
                points <= SCAN_CEILING,
                dropped <= points,
                points + scan_points_from(*m, al, i as int) == scan_points_from(*m, al, 0),
                dropped + scan_dropped_from(*m, sz, al, i as int) == scan_dropped_from(*m, sz, al, 0),
                sorted_by_addr(cands@),
                forall|k: int| 0 <= k < cands@.len()
                    ==> (#[trigger] cands@[k]).addr < region_lb(*m, i as int),
                forall|k: int| #![trigger cands@[k]] 0 <= k < cands@.len() ==> {
                    let c = cands@[k];
                    &&& is_scan_hit(*m, value_type, comparison, alignment, c.addr as int)
                    &&& c.value == stored_value(*m, value_type, c.addr as int)
                    &&& c.prev_value is None
                },
                forall|p: u64| is_scan_hit(*m, value_type, comparison, alignment, p as int)
                    && (p as int) < region_lb(*m, i as int) ==> has_addr(cands@, p),
            decreases n - i,
        {
            let r = m.regions[i].region;
            proof {
                assert(r == m.catalog()[i as int]);
                assert(r.wf());
                lemma_scan_points_unfold(*m, al, i as int);
                lemma_scan_dropped_unfold(*m, sz, al, i as int);
                if i > 0 {
                    assert(m.catalog()[i as int - 1].end() <= r.base);
                }
                assert(region_lb(*m, i as int) <= r.base);
                assert forall|p: u64| is_scan_hit(*m, value_type, comparison, alignment, p as int)
                    && (p as int) < r.base
                    implies has_addr(cands@, p) by {
                    lemma_hit_below_base(*m, value_type, comparison, alignment, i as int, p as int);
                }
            }
            if r.readable {
                let ghost pe = points;
                let ghost de = dropped;
                let ghost cands_before = cands@;
                let ok = scan_region(
                    m,
                    value_type,
                    comparison,
                    alignment,
                    i,
                    &mut cands,
                    &mut points,
                    &mut dropped,
                );
                if !ok {
                    return Err(EngineError::ScanTooLarge);
                }
                proof {
                    lemma_has_addr_prefix(cands_before, cands@);
                    assert forall|p: u64| is_scan_hit(*m, value_type, comparison, alignment, p as int)
                        && (p as int) < region_lb(*m, i as int + 1)
                        implies has_addr(cands@, p) by {
                        if (p as int) < r.base {
                            assert(has_addr(cands_before, p));
                        }
                    }
                }
            } else {
                proof {
                    assert forall|p: u64| is_scan_hit(*m, value_type, comparison, alignment, p as int)
                        && (p as int) < region_lb(*m, i as int + 1)
                        implies has_addr(cands@, p) by {
                        if (p as int) >= r.base {
                            assert(r.contains(p as int));
                            lemma_hit_in_region(*m, value_type, comparison, alignment, i as int, p as int);
                            assert(false);
                        }
                    }
                }
            }
            i = i + 1;
        }
        proof {
            lemma_scan_points_unfold(*m, al, n as int);
            lemma_scan_dropped_unfold(*m, sz, al, n as int);
            assert forall|a: u64| is_scan_hit(*m, value_type, comparison, alignment, a as int)
                implies has_addr(cands@, a) by {
                lemma_hit_below_all(*m, value_type, comparison, alignment, a as int);
            }
        }
        let count = cands.len() as u64;
        Ok((
            ScanState { value_type, alignment, candidates: cands },
            ScanOutcome { candidate_count: count, dropped_reads: dropped },
        ))
    }
}

} // verus!
