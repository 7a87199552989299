//! The pointer path finder.
//!
//! A pointer path locates a dynamic target through a fixed chain of
//! dereferences: starting from an anchor base, each hop adds an offset and
//! reads a pointer-sized word; the value read last must land in the window
//! `[target, target + max_offset]`.  The search walks the reverse pointer
//! graph breadth first with an explicit frontier and visited set, prefers
//! chains anchored in module-backed regions, and is bounded by a caller
//! budget: when the budget runs out it reports a timeout and returns the
//! chains found so far.  Every returned path is revalidated against the
//! snapshot before it is returned, so the contract holds of each of them
//! regardless of the search's internals.

use vstd::prelude::*;
use crate::mem::MemorySpace;
use crate::scan::{lemma_aligned_step, lemma_step_aligned};
use crate::region::RegionKind;
use crate::value::{ValueType, decode_value, le_val, lemma_le_val_bound, lemma_pow256_values, lemma_pow256_mono};

verus! {

/// One offset chain from an anchor base to the target.
#[derive(Clone, Debug)]
pub struct PointerPath {
    pub base: u64,
    pub offsets: Vec<u64>,
    pub static_anchor: bool,
}

/// How a path search ended: completely, or out of budget with whatever
/// chains were found so far (partial success, not a failure).
#[derive(Clone, Copy, Debug, PartialEq, Eq, Structural)]
pub enum PathSearchStatus {
    Complete,
    PathGenerationTimeout,
}

/// The pointer-sized word stored at `p`, little endian.
#[verifier::opaque]
pub open spec fn ptr_value(m: MemorySpace, psz: int, p: int) -> int {
    le_val(m.read_spec(p, psz)) as int
}

/// Whether `p` is a valid hop address: pointer-aligned and readable over a
/// whole pointer-sized word.
pub open spec fn hop_ok(m: MemorySpace, psz: int, p: int) -> bool {
    p % psz == 0 && m.can_read(p, psz)
}

/// Resolves offsets `i..` of a chain from the running value `cur`: each hop
/// reads the pointer at `cur + offset` and continues from the value read.
#[verifier::opaque]
pub open spec fn resolve_from(m: MemorySpace, psz: int, cur: int, offs: Seq<u64>, i: int) -> Option<
    int,
>
    decreases offs.len() - i,
{
    if i < 0 || i >= offs.len() {
        Some(cur)
    } else {
        let p = cur + offs[i];
        if p <= u64::MAX && hop_ok(m, psz, p) {
            resolve_from(m, psz, ptr_value(m, psz, p), offs, i + 1)
        } else {
            None
        }
    }
}

/// One unfolding step of `resolve_from`.
proof fn lemma_resolve_unfold(m: MemorySpace, psz: int, cur: int, offs: Seq<u64>, i: int)
    ensures
        resolve_from(m, psz, cur, offs, i) == if i < 0 || i >= offs.len() {
            Some(cur)
        } else {
            let p = cur + offs[i];
            if p <= u64::MAX && hop_ok(m, psz, p) {
                resolve_from(m, psz, ptr_value(m, psz, p), offs, i + 1)
            } else {
                None
            }
        },
{
    reveal(resolve_from);
}

/// Whether `path` reaches the target: every offset is bounded by
/// `max_off`, every hop dereferences, and the value read last lands in
/// `[target, target + max_off]`.
pub open spec fn path_hits(
    m: MemorySpace,
    psz: int,
    path: PointerPath,
    target: u64,
    max_off: u64,
) -> bool {
    &&& path.offsets@.len() >= 1
    &&& (forall|i: int| 0 <= i < path.offsets@.len() ==> (#[trigger] path.offsets@[i]) <= max_off)
    &&& match resolve_from(m, psz, path.base as int, path.offsets@, 0) {
        Some(v) => target <= v <= target + max_off,
        None => false,
    }
}

/// Whether `b` is the base address of a module-backed region: a static
/// anchor that survives relaunches of the process.
pub open spec fn is_module_base(m: MemorySpace, b: u64) -> bool {
    exists|i: int| 0 <= i < m.catalog().len() && (#[trigger] m.catalog()[i]).kind == RegionKind::Module
        && m.catalog()[i].base == b
}

/// Ranking of returned chains: module-anchored before heap-anchored, and
/// shorter before longer within each class.
pub open spec fn rank_le(p1: PointerPath, p2: PointerPath) -> bool {
    if p1.static_anchor != p2.static_anchor {
        p1.static_anchor
    } else {
        p1.offsets@.len() <= p2.offsets@.len()
    }
}

/// Two chains are the same result when base, offset sequence and anchor
/// kind all agree.
pub open spec fn same_path(p1: PointerPath, p2: PointerPath) -> bool {
    p1.base == p2.base && p1.offsets@ == p2.offsets@ && p1.static_anchor == p2.static_anchor
}

/// Reads the pointer-sized word at `p`, or `None` when `p` is not a valid
/// hop address.
fn read_ptr(m: &MemorySpace, psz: usize, p: u64) -> (r: Option<u64>)
    requires
        m.wf(),
        psz == 4 || psz == 8,
    ensures
        match r {
            Some(v) => hop_ok(*m, psz as int, p as int) && v == ptr_value(*m, psz as int, p as int),
            None => !hop_ok(*m, psz as int, p as int),
        },
{
    proof {
        reveal(ptr_value);
    }
    if p % (psz as u64) != 0 {
        return None;
    }
    match m.read_bytes(p, psz) {
        None => None,
        Some(w) => {
            let vt = if psz == 4 { ValueType::UInt32 } else { ValueType::UInt64 };
            let v = decode_value(vt, &w);
            proof {
                lemma_le_val_bound(w@);
                lemma_pow256_values();
                lemma_pow256_mono(w@.len(), 8);
                assert(0 <= v < 0x1_0000_0000_0000_0000);
            }
            Some(v as u64)
        },
    }
}

/// Resolves a whole chain against the snapshot.
#[verifier::rlimit(100)]
fn resolve_path(m: &MemorySpace, psz: usize, base: u64, offsets: &Vec<u64>) -> (r: Option<u64>)
    requires
        m.wf(),
        psz == 4 || psz == 8,
    ensures
        match r {
            Some(v) => resolve_from(*m, psz as int, base as int, offsets@, 0) == Some(v as int),
            None => resolve_from(*m, psz as int, base as int, offsets@, 0) is None,
        },
{
    let mut cur = base;
    let mut i: usize = 0;
    let n = offsets.len();
    while i < n
        invariant
            m.wf(),
            psz == 4 || psz == 8,
            n == offsets@.len(),
            i <= n,
            resolve_from(*m, psz as int, base as int, offsets@, 0) == resolve_from(
                *m,
                psz as int,
                cur as int,
                offsets@,
                i as int,
            ),
        decreases n - i,
    {
        proof {
            lemma_resolve_unfold(*m, psz as int, cur as int, offsets@, i as int);
        }
        let off = offsets[i];
        if off > u64::MAX - cur {
            return None;
        }
        let p = cur + off;
        match read_ptr(m, psz, p) {
            None => {
                return None;
            },
            Some(v) => {
                cur = v;
            },
        }
        i = i + 1;
    }
    proof {
        lemma_resolve_unfold(*m, psz as int, cur as int, offsets@, n as int);
    }
    Some(cur)
}

/// Whether a candidate chain is fit to return: it hits the target, its
/// length respects the depth bound, and a claimed static anchor really is a
/// module base.
#[verifier::rlimit(100)]
fn path_ok(m: &MemorySpace, psz: usize, path: &PointerPath, target: u64, max_off: u64, max_depth: usize) -> (r:
    bool)
    requires
        m.wf(),
        psz == 4 || psz == 8,
    ensures
        r == ({
            &&& path_hits(*m, psz as int, *path, target, max_off)
            &&& path.offsets@.len() <= max_depth
            &&& (path.static_anchor ==> is_module_base(*m, path.base))
        }),
{
    let n = path.offsets.len();
    if n < 1 || n > max_depth {
        return false;
    }
    let mut i: usize = 0;
    while i < n
        invariant
            n == path.offsets@.len(),
            i <= n,
            forall|j: int| 0 <= j < i ==> (#[trigger] path.offsets@[j]) <= max_off,
        decreases n - i,
    {
        if path.offsets[i] > max_off {
            return false;
        }
        i = i + 1;
    }
    if path.static_anchor {
        let mut k: usize = 0;
        let rn = m.regions.len();
        let mut found = false;
        while k < rn
            invariant
                m.wf(),
                rn == m.regions@.len(),
                k <= rn,
                found ==> is_module_base(*m, path.base),
                !found ==> forall|j: int| 0 <= j < k
                    ==> !((#[trigger] m.catalog()[j]).kind == RegionKind::Module
                        && m.catalog()[j].base == path.base),
            decreases rn - k,
        {
            let r = m.regions[k].region;
            proof {
                assert(r == m.catalog()[k as int]);
            }
            if matches!(r.kind, RegionKind::Module) && r.base == path.base {
                found = true;
            }
            k = k + 1;
        }
        if !found {
            return false;
        }
    }
    match resolve_path(m, psz, path.base, &path.offsets) {
        None => false,
        Some(v) => v >= target && v - target <= max_off,
    }
}

/// Whether `ordered` already carries this exact chain.
fn contains_path(ordered: &Vec<PointerPath>, p: &PointerPath) -> (r: bool)
    ensures
        r == exists|k: int| 0 <= k < ordered@.len() && same_path(#[trigger] ordered@[k], *p),
{
    let mut k: usize = 0;
    let n = ordered.len();
    while k < n
        invariant
            n == ordered@.len(),
            k <= n,
            forall|j: int| 0 <= j < k ==> !same_path(#[trigger] ordered@[j], *p),
        decreases n - k,
    {
        let q = &ordered[k];
        if q.base == p.base && q.static_anchor == p.static_anchor
            && q.offsets.len() == p.offsets.len() {
            let mut i: usize = 0;
            let len = q.offsets.len();
            let mut eq = true;
            while i < len
                invariant
                    len == q.offsets@.len(),
                    len == p.offsets@.len(),
                    i <= len,
                    eq == (forall|j: int| 0 <= j < i ==> q.offsets@[j] == p.offsets@[j]),
                decreases len - i,
            {
                if q.offsets[i] != p.offsets[i] {
                    eq = false;
                }
                i = i + 1;
            }
            if eq {
                proof {
                    assert(q.offsets@ =~= p.offsets@);
                    assert(same_path(ordered@[k as int], *p));
                }
                return true;
            }
        }
        k = k + 1;
    }
    false
}

/// Whether every entry of the index names a valid hop address and carries
/// the pointer word stored there.
pub open spec fn index_sound(m: MemorySpace, psz: int, s: Seq<(u64, u64)>) -> bool {
    forall|j: int| 0 <= j < s.len() ==> {
        let e = #[trigger] s[j];
        &&& hop_ok(m, psz, e.0 as int)
        &&& e.1 == ptr_value(m, psz, e.0 as int)
    }
}

/// Whether the index holds an entry for address `p`.
pub open spec fn indexed(s: Seq<(u64, u64)>, p: u64) -> bool {
    exists|j: int| 0 <= j < s.len() && (#[trigger] s[j]).0 == p
}

/// A one-hop hit: inside module region `k`, at offset `o` within the hop
/// bound, sits a readable, pointer-aligned word whose value lands in the
/// target window.  A single dereference from the module base reaches the
/// target.
#[verifier::opaque]
pub open spec fn one_hop_hit(
    m: MemorySpace,
    psz: int,
    target: u64,
    max_off: u64,
    k: int,
    o: u64,
) -> bool {
    &&& 0 <= k < m.catalog().len()
    &&& m.catalog()[k].kind == RegionKind::Module
    &&& o <= max_off
    &&& o < m.catalog()[k].size
    &&& (m.catalog()[k].base + o) % psz == 0
    &&& m.can_read(m.catalog()[k].base + o, psz)
    &&& target <= ptr_value(m, psz, m.catalog()[k].base + o) <= target + max_off
}

/// Whether the result list holds a depth-one module-anchored chain with
/// this base and offset.
pub open spec fn has_one_hop_path(s: Seq<PointerPath>, base: u64, o: u64) -> bool {
    exists|j: int| 0 <= j < s.len() && {
        let p = #[trigger] s[j];
        &&& p.base == base
        &&& p.static_anchor
        &&& p.offsets@.len() == 1
        &&& p.offsets@[0] == o
    }
}

/// Whether `dst` holds this exact chain.
pub open spec fn represented_in(p: PointerPath, dst: Seq<PointerPath>) -> bool {
    exists|k: int| 0 <= k < dst.len() && same_path(p, #[trigger] dst[k])
}

/// Whether every chain of `src` appears, as the same chain, in `dst`.
pub open spec fn all_represented(src: Seq<PointerPath>, dst: Seq<PointerPath>) -> bool {
    forall|s: int| 0 <= s < src.len() ==> represented_in(#[trigger] src[s], dst)
}

/// Every chain of the shorter list stays represented when the longer list
/// only appends.
proof fn lemma_represented_prefix(src: Seq<PointerPath>, d1: Seq<PointerPath>, d2: Seq<PointerPath>)
    requires
        d1.is_prefix_of(d2),
        all_represented(src, d1),
    ensures
        all_represented(src, d2),
{
    assert forall|s: int| 0 <= s < src.len()
        implies represented_in(#[trigger] src[s], d2) by {
        assert(represented_in(src[s], d1));
        let k = choose|k: int| 0 <= k < d1.len() && same_path(src[s], #[trigger] d1[k]);
        assert(d2[k] == d1[k]);
        assert(same_path(src[s], d2[k]));
    }
}

/// All clauses the finder promises of its result list: every chain hits the
/// target within the bounds, chains are ranked static-first then shortest-
/// first, and no chain appears twice.
pub open spec fn results_ok(
    m: MemorySpace,
    psz: int,
    s: Seq<PointerPath>,
    target: u64,
    max_off: u64,
    max_depth: int,
) -> bool {
    &&& (forall|k: int| #![trigger s[k]] 0 <= k < s.len() ==> {
        &&& path_hits(m, psz, s[k], target, max_off)
        &&& s[k].offsets@.len() <= max_depth
        &&& (s[k].static_anchor ==> is_module_base(m, s[k].base))
    })
    &&& (forall|i: int, j: int| 0 <= i < j < s.len() ==> rank_le(#[trigger] s[i], #[trigger] s[j]))
    &&& (forall|i: int, j: int| 0 <= i < j < s.len() ==> !same_path(#[trigger] s[i], #[trigger] s[j]))
}

/// An exact copy of an offset list.
fn clone_offsets(v: &Vec<u64>) -> (r: Vec<u64>)
    ensures
        r@ == v@,
{
    let mut r: Vec<u64> = Vec::new();
    let mut i: usize = 0;
    let n = v.len();
    while i < n
        invariant
            n == v@.len(),
            i <= n,
            r@ == v@.subrange(0, i as int),
        decreases n - i,
    {
        r.push(v[i]);
        i = i + 1;
    }
    proof {
        assert(r@ =~= v@);
    }
    r
}

/// A new offset list `x` followed by `rest`.
fn prepend(x: u64, rest: &Vec<u64>) -> (r: Vec<u64>)
    ensures
        r@ == seq![x] + rest@,
{
    let mut r: Vec<u64> = Vec::new();
    r.push(x);
    let mut i: usize = 0;
    let n = rest.len();
    while i < n
        invariant
            n == rest@.len(),
            i <= n,
            r@ == seq![x] + rest@.subrange(0, i as int),
        decreases n - i,
    {
        r.push(rest[i]);
        proof {
            assert(r@ =~= seq![x] + rest@.subrange(0, i + 1));
        }
        i = i + 1;
    }
    proof {
        assert(rest@.subrange(0, n as int) =~= rest@);
    }
    r
}

/// Whether the visited set holds `x`.
fn contains_u64(v: &Vec<u64>, x: u64) -> (r: bool)
{
    let mut i: usize = 0;
    let n = v.len();
    while i < n
        invariant
            n == v@.len(),
            i <= n,
        decreases n - i,
    {
        if v[i] == x {
            return true;
        }
        i = i + 1;
    }
    false
}

/// An index entry stays present when the index only appends.
proof fn lemma_indexed_prefix(s1: Seq<(u64, u64)>, s2: Seq<(u64, u64)>)
    requires
        s1.is_prefix_of(s2),
    ensures
        forall|p: u64| indexed(s1, p) ==> indexed(s2, p),
{
    assert forall|p: u64| indexed(s1, p) implies indexed(s2, p) by {
        let j = choose|j: int| 0 <= j < s1.len() && (#[trigger] s1[j]).0 == p;
        assert(s2[j] == s1[j]);
    }
}

/// Walks one readable region and appends every pointer-aligned word whose
/// whole window lies inside it, with the value stored there.  Afterwards
/// every such word of the region is in the index.
#[verifier::rlimit(100)]
fn index_region(m: &MemorySpace, pointer_size: usize, i: usize, index: &mut Vec<(u64, u64)>)
    requires
        m.wf(),
        pointer_size == 4 || pointer_size == 8,
        i < m.regions@.len(),
        m.catalog()[i as int].readable,
        index_sound(*m, pointer_size as int, old(index)@),
    ensures
        old(index)@.is_prefix_of(final(index)@),
        index_sound(*m, pointer_size as int, final(index)@),
        forall|p: u64| p % (pointer_size as u64) == 0
            && m.grants(false, p as int, pointer_size as int, i as int)
            ==> indexed(final(index)@, p),
{
    let ghost psz = pointer_size as int;
    let psz64 = pointer_size as u64;
    let r = m.regions[i].region;
    proof {
        assert(r == m.catalog()[i as int]);
        assert(r.wf());
    }
    let end = r.base + r.size;
    let rem = r.base % psz64;
    // the first pointer-aligned address at or above the region base
    let start_opt: Option<u64> = if rem == 0 {
        Some(r.base)
    } else if psz64 - rem <= u64::MAX - r.base {
        Some(r.base + (psz64 - rem))
    } else {
        None
    };
    proof {
        vstd::arithmetic::div_mod::lemma_fundamental_div_mod(r.base as int, psz);
        if rem != 0 {
            vstd::arithmetic::div_mod::lemma_mod_multiples_vanish(
                r.base as int / psz + 1,
                0,
                psz,
            );
            vstd::arithmetic::div_mod::lemma_mod_multiples_vanish(r.base as int / psz, 0, psz);
        }
    }
    match start_opt {
        None => {
            proof {
                // even the first aligned address past the base overflows,
                // so no aligned word lies in the region at all
                assert forall|p: u64| p % psz64 == 0
                    && m.grants(false, p as int, psz, i as int)
                    implies indexed(index@, p) by {
                    let q0 = r.base as int - rem;
                    assert(q0 % psz == 0);
                    assert(r.base <= p);
                    lemma_aligned_step(0, psz, q0, p as int);
                    assert(false);
                }
            }
        },
        Some(start) => {
            proof {
                assert((start as int) % psz == 0);
            }
            let mut a = start;
            while a < end && end - a >= psz64
                invariant
                    m.wf(),
                    pointer_size == 4 || pointer_size == 8,
                    psz == pointer_size as int,
                    psz64 == pointer_size,
                    i < m.regions@.len(),
                    r == m.catalog()[i as int],
                    r.wf(),
                    r.readable,
                    end == r.end(),
                    r.base <= start,
                    start - r.base < psz64,
                    start <= a,
                    (a as int) % psz == 0,
                    index_sound(*m, psz, index@),
                    old(index)@.is_prefix_of(index@),
                    forall|p: u64| p % psz64 == 0
                        && m.grants(false, p as int, psz, i as int) && p < a
                        ==> indexed(index@, p),
                decreases end - a,
            {
                let ghost before = index@;
                let ghost a0 = a as int;
                match read_ptr(m, pointer_size, a) {
                    Some(v) => {
                        index.push((a, v));
                    },
                    None => {
                        proof {
                            assert(m.grants(false, a0, psz, i as int));
                            assert(m.can_read(a0, psz));
                            assert(false);
                        }
                    },
                }
                proof {
                    assert(before.is_prefix_of(index@));
                    lemma_indexed_prefix(before, index@);
                    assert(index@[index@.len() - 1].0 == a);
                    assert(indexed(index@, a));
                    lemma_step_aligned(0, psz, a0);
                    assert forall|p: u64| p % psz64 == 0
                        && m.grants(false, p as int, psz, i as int) && p < a + psz64
                        implies indexed(index@, p) by {
                        if a < p {
                            lemma_aligned_step(0, psz, a0, p as int);
                            assert(false);
                        }
                    }
                }
                a = a + psz64;
            }
            proof {
                // the window no longer fits below the region end, so every
                // aligned word of the region is already behind us
                assert forall|p: u64| p % psz64 == 0
                    && m.grants(false, p as int, psz, i as int)
                    implies indexed(index@, p) by {
                    if p >= a {
                        assert(p as int + psz <= r.end());
                        assert(false);
                    }
                    if p < start {
                        lemma_aligned_step(0, psz, p as int, start as int);
                        assert(false);
                    }
                }
            }
        },
    }
}

/// Indexes every pointer-aligned word of the readable regions, completely:
/// every aligned address with a readable pointer-sized window appears.
#[verifier::rlimit(100)]
fn build_index(m: &MemorySpace, pointer_size: usize) -> (index: Vec<(u64, u64)>)
    requires
        m.wf(),
        pointer_size == 4 || pointer_size == 8,
    ensures
        index_sound(*m, pointer_size as int, index@),
        forall|p: u64| p % (pointer_size as u64) == 0
            && m.can_read(p as int, pointer_size as int) ==> indexed(index@, p),
{
    let mut index: Vec<(u64, u64)> = Vec::new();
    let rn = m.regions.len();
    let mut ri: usize = 0;
    while ri < rn
        invariant
            m.wf(),
            pointer_size == 4 || pointer_size == 8,
            rn == m.regions@.len(),
            ri <= rn,
            index_sound(*m, pointer_size as int, index@),
            forall|p: u64, j: int| p % (pointer_size as u64) == 0 && 0 <= j < ri
                && m.grants(false, p as int, pointer_size as int, j)
                ==> indexed(index@, p),
        decreases rn - ri,
    {
        let readable = m.regions[ri].region.readable;
        let ghost before = index@;
        if readable {
            proof {
                assert(m.catalog()[ri as int].readable);
            }
            index_region(m, pointer_size, ri, &mut index);
            proof {
                lemma_indexed_prefix(before, index@);
            }
        }
        proof {
            assert forall|p: u64, j: int| p % (pointer_size as u64) == 0 && 0 <= j < ri + 1
                && m.grants(false, p as int, pointer_size as int, j)
                implies indexed(index@, p) by {
                if j == ri as int {
                    assert(m.catalog()[j].readable);
                }
            }
        }
        ri = ri + 1;
    }
    proof {
        assert forall|p: u64| p % (pointer_size as u64) == 0
            && m.can_read(p as int, pointer_size as int)
            implies indexed(index@, p) by {
            let j = choose|j: int| 0 <= j < m.catalog().len()
                && (#[trigger] m.catalog()[j]).readable
                && m.catalog()[j].covers(p as int, pointer_size as int);
            assert(m.grants(false, p as int, pointer_size as int, j));
        }
    }
    index
}

/// The region containing address `p`, if any.
#[verifier::rlimit(100)]
fn containing_region(m: &MemorySpace, p: u64) -> (r: Option<usize>)
    requires
        m.wf(),
    ensures
        match r {
            Some(i) => i < m.regions@.len() && m.catalog()[i as int].contains(p as int),
            None => !m.mapped(p as int),
        },
{
    let rn = m.regions.len();
    let mut i: usize = 0;
    while i < rn
        invariant
            m.wf(),
            rn == m.regions@.len(),
            i <= rn,
            forall|j: int| 0 <= j < i ==> !(#[trigger] m.catalog()[j]).contains(p as int),
        decreases rn - i,
    {
        let rr = m.regions[i].region;
        proof {
            assert(rr == m.catalog()[i as int]);
            assert(rr.wf());
        }
        if rr.base <= p && p - rr.base < rr.size {
            return Some(i);
        }
        i = i + 1;
    }
    proof {
        if m.mapped(p as int) {
            let j = choose|j: int| 0 <= j < m.catalog().len()
                && (#[trigger] m.catalog()[j]).contains(p as int);
            assert(false);
        }
    }
    None
}

/// A one-hop chain stays present when the list only appends.
proof fn lemma_one_hop_prefix(s1: Seq<PointerPath>, s2: Seq<PointerPath>)
    requires
        s1.is_prefix_of(s2),
    ensures
        forall|b: u64, o: u64| has_one_hop_path(s1, b, o) ==> has_one_hop_path(s2, b, o),
{
    assert forall|b: u64, o: u64| has_one_hop_path(s1, b, o)
        implies has_one_hop_path(s2, b, o) by {
        let w = choose|w: int| 0 <= w < s1.len() && {
            let q = #[trigger] s1[w];
            &&& q.base == b
            &&& q.static_anchor
            &&& q.offsets@.len() == 1
            &&& q.offsets@[0] == o
        };
        assert(s2[w] == s1[w]);
    }
}

/// Appends the depth-one module-anchored chain for the indexed word `p`,
/// whose containing region `rk` is module-backed and within the hop bound.
#[verifier::rlimit(100)]
fn push_static(
    m: &MemorySpace,
    pointer_size: usize,
    target: u64,
    max_offset: u64,
    p: u64,
    v: u64,
    rk: usize,
    statics: &mut Vec<PointerPath>,
)
    requires
        m.wf(),
        pointer_size == 4 || pointer_size == 8,
        hop_ok(*m, pointer_size as int, p as int),
        v == ptr_value(*m, pointer_size as int, p as int),
        v >= target,
        v - target <= max_offset,
        rk < m.regions@.len(),
        m.catalog()[rk as int].contains(p as int),
        m.catalog()[rk as int].kind == RegionKind::Module,
        p - m.catalog()[rk as int].base <= max_offset,
        forall|j: int| #![trigger old(statics)@[j]] 0 <= j < old(statics)@.len() ==> {
            &&& path_hits(*m, pointer_size as int, old(statics)@[j], target, max_offset)
            &&& old(statics)@[j].offsets@.len() == 1
            &&& old(statics)@[j].static_anchor
            &&& is_module_base(*m, old(statics)@[j].base)
        },
    ensures
        old(statics)@.is_prefix_of(final(statics)@),
        final(statics)@.len() == old(statics)@.len() + 1,
        forall|j: int| #![trigger final(statics)@[j]] 0 <= j < final(statics)@.len() ==> {
            &&& path_hits(*m, pointer_size as int, final(statics)@[j], target, max_offset)
            &&& final(statics)@[j].offsets@.len() == 1
            &&& final(statics)@[j].static_anchor
            &&& is_module_base(*m, final(statics)@[j].base)
        },
        final(statics)@.last().base == m.catalog()[rk as int].base,
        final(statics)@.last().offsets@[0] == p - m.catalog()[rk as int].base,
{
    let ghost psz = pointer_size as int;
    let rr = m.regions[rk].region;
    proof {
        assert(rr == m.catalog()[rk as int]);
        assert(rr.wf());
    }
    let o = p - rr.base;
    let mut offs: Vec<u64> = Vec::new();
    offs.push(o);
    let entry = PointerPath { base: rr.base, offsets: offs, static_anchor: true };
    proof {
        // the chain resolves in one hop to the indexed value, which lies
        // in the window
        assert(entry.offsets@ =~= seq![o]);
        lemma_resolve_unfold(*m, psz, rr.base as int, entry.offsets@, 0);
        lemma_resolve_unfold(*m, psz, v as int, entry.offsets@, 1);
        assert(resolve_from(*m, psz, rr.base as int, entry.offsets@, 0) == Some(v as int));
        assert(path_hits(*m, psz, entry, target, max_offset));
        assert(is_module_base(*m, entry.base));
    }
    statics.push(entry);
}

/// Seeds from one indexed word whose value lands in the target window:
/// a depth-one chain anchored at the containing module region (when there
/// is one and the anchor offset respects the hop bound), a raw-anchored
/// chain, and a frontier element for the deeper search.
#[verifier::rlimit(100)]
fn seed_entry(
    m: &MemorySpace,
    pointer_size: usize,
    target: u64,
    max_offset: u64,
    p: u64,
    v: u64,
    statics: &mut Vec<PointerPath>,
    others: &mut Vec<PointerPath>,
    frontier: &mut Vec<(u64, Vec<u64>)>,
)
    requires
        m.wf(),
        pointer_size == 4 || pointer_size == 8,
        hop_ok(*m, pointer_size as int, p as int),
        v == ptr_value(*m, pointer_size as int, p as int),
        v >= target,
        v - target <= max_offset,
        forall|j: int| #![trigger old(statics)@[j]] 0 <= j < old(statics)@.len() ==> {
            &&& path_hits(*m, pointer_size as int, old(statics)@[j], target, max_offset)
            &&& old(statics)@[j].offsets@.len() == 1
            &&& old(statics)@[j].static_anchor
            &&& is_module_base(*m, old(statics)@[j].base)
        },
    ensures
        old(statics)@.is_prefix_of(final(statics)@),
        forall|j: int| #![trigger final(statics)@[j]] 0 <= j < final(statics)@.len() ==> {
            &&& path_hits(*m, pointer_size as int, final(statics)@[j], target, max_offset)
            &&& final(statics)@[j].offsets@.len() == 1
            &&& final(statics)@[j].static_anchor
            &&& is_module_base(*m, final(statics)@[j].base)
        },
        forall|k: int, o: u64| one_hop_hit(*m, pointer_size as int, target, max_offset, k, o)
            && m.catalog()[k].base + o == p
            ==> has_one_hop_path(final(statics)@, m.catalog()[k].base, o),
{
    let ghost psz = pointer_size as int;
    frontier.push((p, Vec::new()));
    others.push(PointerPath { base: p, offsets: prepend(0, &Vec::new()), static_anchor: false });
    let found = containing_region(m, p);
    let mut pushed_static = false;
    match found {
        Some(rk) => {
            let rr = m.regions[rk].region;
            proof {
                assert(rr == m.catalog()[rk as int]);
            }
            if matches!(rr.kind, RegionKind::Module) && p - rr.base <= max_offset {
                push_static(m, pointer_size, target, max_offset, p, v, rk, statics);
                pushed_static = true;
            }
        },
        None => {
        },
    }
    proof {
        assert forall|k: int, o: u64| one_hop_hit(*m, psz, target, max_offset, k, o)
            && m.catalog()[k].base + o == p
            implies has_one_hop_path(statics@, m.catalog()[k].base, o) by {
            reveal(one_hop_hit);
            // the hit's module region contains p, so it is the (unique)
            // region the seeding found, and the chain was pushed just now
            assert(m.catalog()[k].contains(p as int));
            assert(m.mapped(p as int));
            let rk2 = found->Some_0 as int;
            crate::region::lemma_catalog_unique(m.catalog(), k, rk2, p as int);
            assert(pushed_static);
            assert(statics@[statics@.len() - 1].base == m.catalog()[k].base);
            assert(statics@[statics@.len() - 1].offsets@[0] == o);
        }
    }
}

/// Seeds the search from the index: for every indexed word whose value
/// already lands in the target window, a depth-one chain is recorded and
/// the word becomes a frontier element for the deeper search.  Every
/// one-hop module chain is seeded; this pass costs no budget.
#[verifier::rlimit(100)]
fn seed_chains(
    m: &MemorySpace,
    pointer_size: usize,
    target: u64,
    max_offset: u64,
    index: &Vec<(u64, u64)>,
) -> (r: (Vec<PointerPath>, Vec<PointerPath>, Vec<(u64, Vec<u64>)>))
    requires
        m.wf(),
        pointer_size == 4 || pointer_size == 8,
        index_sound(*m, pointer_size as int, index@),
        forall|p: u64| p % (pointer_size as u64) == 0
            && m.can_read(p as int, pointer_size as int) ==> indexed(index@, p),
    ensures
        // completeness: every one-hop module chain is among the seeds
        forall|k: int, o: u64| one_hop_hit(*m, pointer_size as int, target, max_offset, k, o)
            ==> has_one_hop_path(r.0@, m.catalog()[k].base, o),
        // soundness: every seeded module chain is a valid depth-one hit
        forall|j: int| #![trigger r.0@[j]] 0 <= j < r.0@.len() ==> {
            &&& path_hits(*m, pointer_size as int, r.0@[j], target, max_offset)
            &&& r.0@[j].offsets@.len() == 1
            &&& r.0@[j].static_anchor
            &&& is_module_base(*m, r.0@[j].base)
        },
{
    let ghost psz = pointer_size as int;
    let mut statics: Vec<PointerPath> = Vec::new();
    let mut others: Vec<PointerPath> = Vec::new();
    let mut frontier: Vec<(u64, Vec<u64>)> = Vec::new();
    let in_len = index.len();
    let mut ii: usize = 0;
    while ii < in_len
        invariant
            m.wf(),
            pointer_size == 4 || pointer_size == 8,
            psz == pointer_size as int,
            index_sound(*m, psz, index@),
            in_len == index@.len(),
            ii <= in_len,
            forall|k: int, o: u64| one_hop_hit(*m, psz, target, max_offset, k, o)
                && (exists|j: int| 0 <= j < ii && (#[trigger] index@[j]).0
                    == m.catalog()[k].base + o)
                ==> has_one_hop_path(statics@, m.catalog()[k].base, o),
            forall|j: int| #![trigger statics@[j]] 0 <= j < statics@.len() ==> {
                &&& path_hits(*m, psz, statics@[j], target, max_offset)
                &&& statics@[j].offsets@.len() == 1
                &&& statics@[j].static_anchor
                &&& is_module_base(*m, statics@[j].base)
            },
        decreases in_len - ii,
    {
        let (p, v) = index[ii];
        let ghost statics0 = statics@;
        if v >= target && v - target <= max_offset {
            seed_entry(m, pointer_size, target, max_offset, p, v, &mut statics, &mut others, &mut frontier);
        }
        proof {
            assert(statics0.is_prefix_of(statics@));
            lemma_one_hop_prefix(statics0, statics@);
            assert forall|k: int, o: u64| one_hop_hit(*m, psz, target, max_offset, k, o)
                && (exists|j: int| 0 <= j < ii + 1 && (#[trigger] index@[j]).0
                    == m.catalog()[k].base + o)
                implies has_one_hop_path(statics@, m.catalog()[k].base, o) by {
                let j = choose|j: int| 0 <= j < ii + 1 && (#[trigger] index@[j]).0
                    == m.catalog()[k].base + o;
                if j == ii as int {
                    reveal(one_hop_hit);
                    assert(index@[ii as int].0 == m.catalog()[k].base + o);
                    assert(v == ptr_value(*m, psz, p as int));
                }
            }
        }
        ii = ii + 1;
    }
    proof {
        assert forall|k: int, o: u64| one_hop_hit(*m, psz, target, max_offset, k, o)
            implies has_one_hop_path(statics@, m.catalog()[k].base, o) by {
            reveal(one_hop_hit);
            let hp = m.catalog()[k].base + o;
            assert(m.can_read(hp, psz));
            assert(hp % psz == 0);
            assert(indexed(index@, hp as u64));
            let j = choose|j: int| 0 <= j < index@.len() && (#[trigger] index@[j]).0 == hp as u64;
            assert(0 <= j < in_len && index@[j].0 == m.catalog()[k].base + o);
        }
    }
    (statics, others, frontier)
}

/// Discovers pointer paths to `target` over the snapshot: a breadth-first
/// search of the reverse pointer graph over every aligned pointer-sized
/// word of the readable regions, bounded by `max_depth` hops and `max_offset`
/// per hop.  A chain whose anchor falls in a module-backed region ends the
/// branch with priority; results are ranked module-anchored-and-shortest
/// first, deduplicated, truncated to `max_results`, and each one is
/// revalidated against the snapshot before it is returned.  The search
/// checks the caller's `budget` between units of work; when it runs out,
/// the chains found so far are returned with a timeout status instead of an
/// error.
#[verifier::rlimit(100)]
pub fn find_paths(
    m: &MemorySpace,
    pointer_size: usize,
    target: u64,
    max_depth: usize,
    max_offset: u64,
    max_results: usize,
    budget: u64,
) -> (r: (Vec<PointerPath>, PathSearchStatus))
    requires
        m.wf(),
        pointer_size == 4 || pointer_size == 8,
    ensures
        r.0@.len() <= max_results,
        results_ok(*m, pointer_size as int, r.0@, target, max_offset, max_depth as int),
        max_depth <= 1 ==> r.1 == PathSearchStatus::Complete,
        r.0@.len() < max_results && max_depth >= 1
            ==> (forall|k: int, o: u64| one_hop_hit(*m, pointer_size as int, target, max_offset, k, o)
                ==> has_one_hop_path(r.0@, m.catalog()[k].base, o)),
{
    // index every aligned pointer-sized word of the readable regions
    let index = build_index(m, pointer_size);
    let rn = m.regions.len();
    let in_len = index.len();
    // seed the depth-one chains and the level-zero frontier, unmetered
    let (statics_seed, others_seed, frontier0) = seed_chains(m, pointer_size, target, max_offset, &index);
    // breadth-first walk of the reverse pointer graph; chains carry the
    // offsets from their read address down to the target.  Depth-one chains
    // are already seeded, so the walk only matters for deeper ones.
    let mut statics: Vec<PointerPath> = Vec::new();
    let mut others: Vec<PointerPath> = Vec::new();
    let mut frontier: Vec<(u64, Vec<u64>)> = frontier0;
    let mut visited: Vec<u64> = Vec::new();
    let mut budget_left = budget;
    let mut timed_out = false;
    let mut depth: usize = 0;
    if max_depth > 1 {
    while depth < max_depth && !timed_out
        invariant
            m.wf(),
            pointer_size == 4 || pointer_size == 8,
            rn == m.regions@.len(),
            in_len == index@.len(),
            depth <= max_depth,
        decreases max_depth - depth + (if timed_out { 0int } else { 1int }),
    {
        let mut next: Vec<(u64, Vec<u64>)> = Vec::new();
        let fl = frontier.len();
        let mut fi: usize = 0;
        while fi < fl && !timed_out
            invariant
                m.wf(),
                pointer_size == 4 || pointer_size == 8,
                rn == m.regions@.len(),
                in_len == index@.len(),
                fl == frontier@.len(),
                fi <= fl,
            decreases fl - fi + (if timed_out { 0int } else { 1int }),
        {
            if budget_left == 0 {
                timed_out = true;
            } else {
                budget_left = budget_left - 1;
                let p = frontier[fi].0;
                // anchor emission: a chain starting at p, read first at p
                let mut hit_static = false;
                let mut rk: usize = 0;
                while rk < rn
                    invariant
                        m.wf(),
                        rn == m.regions@.len(),
                        rk <= rn,
                        fi < frontier@.len(),
                    decreases rn - rk,
                {
                    let rr = m.regions[rk].region;
                    proof {
                        assert(rr == m.catalog()[rk as int]);
                        assert(rr.wf());
                    }
                    if rr.base <= p && p - rr.base < rr.size {
                        if matches!(rr.kind, RegionKind::Module) && p - rr.base <= max_offset {
                            hit_static = true;
                            if statics.len() < max_results {
                                let offs = prepend(p - rr.base, &frontier[fi].1);
                                statics.push(
                                    PointerPath { base: rr.base, offsets: offs, static_anchor: true },
                                );
                            }
                        }
                    }
                    rk = rk + 1;
                }
                if others.len() < max_results {
                    let offs = prepend(0, &frontier[fi].1);
                    others.push(PointerPath { base: p, offsets: offs, static_anchor: false });
                }
                // a static anchor ends the branch with priority; otherwise
                // look for predecessors pointing at p within the offset bound
                if !hit_static && !contains_u64(&visited, p) {
                    visited.push(p);
                    let mut qi: usize = 0;
                    while qi < in_len
                        invariant
                            in_len == index@.len(),
                            qi <= in_len,
                            fi < frontier@.len(),
                        decreases in_len - qi,
                    {
                        let (q, vq) = index[qi];
                        if vq <= p && p - vq <= max_offset {
                            let offs = prepend(p - vq, &frontier[fi].1);
                            next.push((q, offs));
                        }
                        qi = qi + 1;
                    }
                }
            }
            if !timed_out {
                fi = fi + 1;
            }
        }
        frontier = next;
        depth = depth + 1;
    }
    }
    // rank, revalidate, deduplicate and truncate: module-anchored chains
    // first, shorter chains first within each class
    let mut ordered: Vec<PointerPath> = Vec::new();
    let mut lc: usize = 0;
    while lc < max_depth
        invariant
            m.wf(),
            pointer_size == 4 || pointer_size == 8,
            ordered@.len() <= max_results,
            results_ok(*m, pointer_size as int, ordered@, target, max_offset, max_depth as int),
            forall|k: int| 0 <= k < ordered@.len() ==> (#[trigger] ordered@[k]).static_anchor,
            forall|k: int| 0 <= k < ordered@.len()
                ==> (#[trigger] ordered@[k]).offsets@.len() <= lc + 1,
            forall|j: int| #![trigger statics_seed@[j]] 0 <= j < statics_seed@.len() ==> {
                &&& path_hits(*m, pointer_size as int, statics_seed@[j], target, max_offset)
                &&& statics_seed@[j].offsets@.len() == 1
                &&& statics_seed@[j].static_anchor
                &&& is_module_base(*m, statics_seed@[j].base)
            },
            lc >= 1 && ordered@.len() < max_results
                ==> all_represented(statics_seed@, ordered@),
        decreases max_depth - lc,
    {
        let l = lc + 1;
        let ssl = statics_seed.len();
        let mut ssi: usize = 0;
        while ssi < ssl
            invariant
                m.wf(),
                pointer_size == 4 || pointer_size == 8,
                ssl == statics_seed@.len(),
                ssi <= ssl,
                l == lc + 1,
                lc < max_depth,
                ordered@.len() <= max_results,
                results_ok(*m, pointer_size as int, ordered@, target, max_offset, max_depth as int),
                forall|k: int| 0 <= k < ordered@.len() ==> (#[trigger] ordered@[k]).static_anchor,
                forall|k: int| 0 <= k < ordered@.len()
                    ==> (#[trigger] ordered@[k]).offsets@.len() <= l,
                forall|j: int| #![trigger statics_seed@[j]] 0 <= j < statics_seed@.len() ==> {
                    &&& path_hits(*m, pointer_size as int, statics_seed@[j], target, max_offset)
                    &&& statics_seed@[j].offsets@.len() == 1
                    &&& statics_seed@[j].static_anchor
                    &&& is_module_base(*m, statics_seed@[j].base)
                },
                ordered@.len() < max_results ==> forall|s: int| 0 <= s < statics_seed@.len()
                    && (lc >= 1 || s < ssi)
                    ==> represented_in(#[trigger] statics_seed@[s], ordered@),
            decreases ssl - ssi,
        {
            let ghost before = ordered@;
            let keep = ordered.len() < max_results && statics_seed[ssi].offsets.len() == l
                && statics_seed[ssi].static_anchor
                && path_ok(m, pointer_size, &statics_seed[ssi], target, max_offset, max_depth)
                && !contains_path(&ordered, &statics_seed[ssi]);
            if keep {
                let copy = PointerPath {
                    base: statics_seed[ssi].base,
                    offsets: clone_offsets(&statics_seed[ssi].offsets),
                    static_anchor: statics_seed[ssi].static_anchor,
                };
                proof {
                    assert(copy.offsets@ =~= statics_seed@[ssi as int].offsets@);
                    assert(same_path(copy, statics_seed@[ssi as int]));
                    assert(path_hits(*m, pointer_size as int, copy, target, max_offset));
                }
                ordered.push(copy);
            }
            proof {
                assert(before.is_prefix_of(ordered@));
                if ordered@.len() < max_results {
                    assert forall|s: int| 0 <= s < statics_seed@.len() && (lc >= 1 || s < ssi + 1)
                        implies represented_in(#[trigger] statics_seed@[s], ordered@) by {
                        if lc >= 1 || s < ssi {
                            assert(represented_in(statics_seed@[s], before));
                            let k0 = choose|k0: int| 0 <= k0 < before.len()
                                && same_path(statics_seed@[s], #[trigger] before[k0]);
                            assert(ordered@[k0] == before[k0]);
                        } else {
                            // this round just processed entry `ssi` itself:
                            // it was pushed, or an equal chain was already in
                            assert(s == ssi as int && lc == 0);
                            if keep {
                                assert(same_path(statics_seed@[s], ordered@[ordered@.len() - 1]));
                            } else {
                                assert(before.len() < max_results);
                                assert(statics_seed@[s].offsets@.len() == 1);
                                let k0 = choose|k0: int| 0 <= k0 < before.len()
                                    && same_path(#[trigger] before[k0], statics_seed@[s]);
                                assert(same_path(statics_seed@[s], before[k0]));
                                assert(ordered@[k0] == before[k0]);
                            }
                        }
                    }
                }
            }
            ssi = ssi + 1;
        }
        let sl = statics.len();
        let mut si: usize = 0;
        while si < sl
            invariant
                m.wf(),
                pointer_size == 4 || pointer_size == 8,
                sl == statics@.len(),
                si <= sl,
                ordered@.len() <= max_results,
                results_ok(*m, pointer_size as int, ordered@, target, max_offset, max_depth as int),
                forall|k: int| 0 <= k < ordered@.len() ==> (#[trigger] ordered@[k]).static_anchor,
                forall|k: int| 0 <= k < ordered@.len()
                    ==> (#[trigger] ordered@[k]).offsets@.len() <= l,
                ordered@.len() < max_results ==> all_represented(statics_seed@, ordered@),
            decreases sl - si,
        {
            let ghost before = ordered@;
            let keep = ordered.len() < max_results && statics[si].offsets.len() == l
                && statics[si].static_anchor
                && path_ok(m, pointer_size, &statics[si], target, max_offset, max_depth)
                && !contains_path(&ordered, &statics[si]);
            if keep {
                let copy = PointerPath {
                    base: statics[si].base,
                    offsets: clone_offsets(&statics[si].offsets),
                    static_anchor: statics[si].static_anchor,
                };
                proof {
                    assert(copy.offsets@ =~= statics@[si as int].offsets@);
                    assert(same_path(copy, statics@[si as int]));
                    assert(path_hits(*m, pointer_size as int, copy, target, max_offset));
                }
                ordered.push(copy);
            }
            proof {
                assert(before.is_prefix_of(ordered@));
                if ordered@.len() < max_results {
                    lemma_represented_prefix(statics_seed@, before, ordered@);
                }
            }
            si = si + 1;
        }
        lc = lc + 1;
    }
    let ghost n_static = ordered@.len();
    let mut lc2: usize = 0;
    while lc2 < max_depth
        invariant
            m.wf(),
            pointer_size == 4 || pointer_size == 8,
            ordered@.len() <= max_results,
            results_ok(*m, pointer_size as int, ordered@, target, max_offset, max_depth as int),
            n_static <= ordered@.len(),
            forall|k: int| 0 <= k < n_static ==> (#[trigger] ordered@[k]).static_anchor,
            forall|k: int| n_static <= k < ordered@.len()
                ==> !(#[trigger] ordered@[k]).static_anchor,
            forall|k: int| n_static <= k < ordered@.len()
                ==> (#[trigger] ordered@[k]).offsets@.len() <= lc2 + 1,
            max_depth >= 1 && ordered@.len() < max_results
                ==> all_represented(statics_seed@, ordered@),
        decreases max_depth - lc2,
    {
        let l2 = lc2 + 1;
        let mut osi: usize = 0;
        let osl = others_seed.len();
        while osi < osl
            invariant
                m.wf(),
                pointer_size == 4 || pointer_size == 8,
                osl == others_seed@.len(),
                osi <= osl,
                ordered@.len() <= max_results,
                results_ok(*m, pointer_size as int, ordered@, target, max_offset, max_depth as int),
                n_static <= ordered@.len(),
                forall|k: int| 0 <= k < n_static ==> (#[trigger] ordered@[k]).static_anchor,
                forall|k: int| n_static <= k < ordered@.len()
                    ==> !(#[trigger] ordered@[k]).static_anchor,
                forall|k: int| n_static <= k < ordered@.len()
                    ==> (#[trigger] ordered@[k]).offsets@.len() <= l2,
                max_depth >= 1 && ordered@.len() < max_results
                    ==> all_represented(statics_seed@, ordered@),
            decreases osl - osi,
        {
            let ghost before = ordered@;
            let keep = ordered.len() < max_results && others_seed[osi].offsets.len() == l2
                && !others_seed[osi].static_anchor
                && path_ok(m, pointer_size, &others_seed[osi], target, max_offset, max_depth)
                && !contains_path(&ordered, &others_seed[osi]);
            if keep {
                let copy = PointerPath {
                    base: others_seed[osi].base,
                    offsets: clone_offsets(&others_seed[osi].offsets),
                    static_anchor: others_seed[osi].static_anchor,
                };
                proof {
                    assert(copy.offsets@ =~= others_seed@[osi as int].offsets@);
                    assert(same_path(copy, others_seed@[osi as int]));
                    assert(path_hits(*m, pointer_size as int, copy, target, max_offset));
                }
                ordered.push(copy);
            }
            proof {
                assert(before.is_prefix_of(ordered@));
                if max_depth >= 1 && ordered@.len() < max_results {
                    lemma_represented_prefix(statics_seed@, before, ordered@);
                }
            }
            osi = osi + 1;
        }
        let ol = others.len();
        let mut oi: usize = 0;
        while oi < ol
            invariant
                m.wf(),
                pointer_size == 4 || pointer_size == 8,
                ol == others@.len(),
                oi <= ol,
                ordered@.len() <= max_results,
                results_ok(*m, pointer_size as int, ordered@, target, max_offset, max_depth as int),
                n_static <= ordered@.len(),
                forall|k: int| 0 <= k < n_static ==> (#[trigger] ordered@[k]).static_anchor,
                forall|k: int| n_static <= k < ordered@.len()
                    ==> !(#[trigger] ordered@[k]).static_anchor,
                forall|k: int| n_static <= k < ordered@.len()
                    ==> (#[trigger] ordered@[k]).offsets@.len() <= l2,
                max_depth >= 1 && ordered@.len() < max_results
                    ==> all_represented(statics_seed@, ordered@),
            decreases ol - oi,
        {
            let ghost before = ordered@;
            let keep = ordered.len() < max_results && others[oi].offsets.len() == l2
                && !others[oi].static_anchor
                && path_ok(m, pointer_size, &others[oi], target, max_offset, max_depth)
                && !contains_path(&ordered, &others[oi]);
            if keep {
                let copy = PointerPath {
                    base: others[oi].base,
                    offsets: clone_offsets(&others[oi].offsets),
                    static_anchor: others[oi].static_anchor,
                };
                proof {
                    assert(copy.offsets@ =~= others@[oi as int].offsets@);
                    assert(same_path(copy, others@[oi as int]));
                    assert(path_hits(*m, pointer_size as int, copy, target, max_offset));
                }
                ordered.push(copy);
            }
            proof {
                assert(before.is_prefix_of(ordered@));
                if max_depth >= 1 && ordered@.len() < max_results {
                    lemma_represented_prefix(statics_seed@, before, ordered@);
                }
            }
            oi = oi + 1;
        }
        lc2 = lc2 + 1;
    }
    proof {
        // every one-hop module chain was seeded, every seed is represented
        // in the result while it is not truncated, and representation
        // carries the fields over
        if ordered@.len() < max_results && max_depth >= 1 {
            assert forall|k: int, o: u64| one_hop_hit(
                *m,
                pointer_size as int,
                target,
                max_offset,
                k,
                o,
            ) implies has_one_hop_path(ordered@, m.catalog()[k].base, o) by {
                assert(has_one_hop_path(statics_seed@, m.catalog()[k].base, o));
                let j = choose|j: int| 0 <= j < statics_seed@.len() && {
                    let q = #[trigger] statics_seed@[j];
                    &&& q.base == m.catalog()[k].base
                    &&& q.static_anchor
                    &&& q.offsets@.len() == 1
                    &&& q.offsets@[0] == o
                };
                assert(represented_in(statics_seed@[j], ordered@));
                let k0 = choose|k0: int| 0 <= k0 < ordered@.len()
                    && same_path(statics_seed@[j], #[trigger] ordered@[k0]);
                assert(ordered@[k0].base == m.catalog()[k].base);
                assert(ordered@[k0].static_anchor);
                assert(ordered@[k0].offsets@.len() == 1);
                assert(ordered@[k0].offsets@[0] == o);
            }
        }
    }
    let status = if timed_out {
        PathSearchStatus::PathGenerationTimeout
    } else {
        PathSearchStatus::Complete
    };
    (ordered, status)
}

} // verus!
