//! Scan value types, their little-endian decoding, and comparison semantics.
//!
//! A scan declares its value type once at start time; every window read
//! during scanning and filtering is decoded under that type, and no coercion
//! is ever inferred later.  Decoded values are carried as `i128`, which holds
//! every value of every supported type exactly.

use vstd::prelude::*;

verus! {

/// The declared type of the scanned value.
#[derive(Clone, Copy, Debug, PartialEq, Eq, Structural)]
pub enum ValueType {
    Int8,
    Int16,
    Int32,
    Int64,
    UInt8,
    UInt16,
    UInt32,
    UInt64,
}

impl ValueType {
    /// Width of the value in bytes.
    pub open spec fn size_spec(self) -> nat {
        match self {
            ValueType::Int8 | ValueType::UInt8 => 1,
            ValueType::Int16 | ValueType::UInt16 => 2,
            ValueType::Int32 | ValueType::UInt32 => 4,
            ValueType::Int64 | ValueType::UInt64 => 8,
        }
    }

    /// Whether the value is interpreted in two's complement.
    pub open spec fn signed_spec(self) -> bool {
        match self {
            ValueType::Int8 | ValueType::Int16 | ValueType::Int32 | ValueType::Int64 => true,
            _ => false,
        }
    }

    /// Width of the value in bytes.
    pub fn size(self) -> (n: usize)
        ensures
            n == self.size_spec(),
    {
        match self {
            ValueType::Int8 | ValueType::UInt8 => 1,
            ValueType::Int16 | ValueType::UInt16 => 2,
            ValueType::Int32 | ValueType::UInt32 => 4,
            ValueType::Int64 | ValueType::UInt64 => 8,
        }
    }
}

/// The unsigned value of a little-endian byte sequence.
pub open spec fn le_val(s: Seq<u8>) -> nat
    decreases s.len(),
{
    if s.len() == 0 {
        0
    } else {
        (s[0] as nat) + 256 * le_val(s.drop_first())
    }
}

/// `256^n`.
pub open spec fn pow256(n: nat) -> nat
    decreases n,
{
    if n == 0 {
        1
    } else {
        256 * pow256((n - 1) as nat)
    }
}

/// A little-endian byte sequence is bounded by `256^len`.
pub proof fn lemma_le_val_bound(s: Seq<u8>)
    ensures
        le_val(s) < pow256(s.len()),
    decreases s.len(),
{
    if s.len() > 0 {
        lemma_le_val_bound(s.drop_first());
    }
}

/// The powers of 256 the decoder needs, spelled out.
pub proof fn lemma_pow256_values()
    ensures
        pow256(1) == 0x100,
        pow256(2) == 0x10000,
        pow256(4) == 0x1_0000_0000,
        pow256(8) == 0x1_0000_0000_0000_0000,
{
    assert(pow256(0) == 1);
    assert(pow256(1) == 0x100);
    assert(pow256(2) == 0x10000);
    assert(pow256(3) == 0x100_0000);
    assert(pow256(4) == 0x1_0000_0000);
    assert(pow256(5) == 0x100_0000_0000);
    assert(pow256(6) == 0x1_0000_0000_0000);
    assert(pow256(7) == 0x100_0000_0000_0000);
    assert(pow256(8) == 0x1_0000_0000_0000_0000);
}

/// The value a byte window denotes under a declared type: the little-endian
/// unsigned value, sign-adjusted when the type is signed.
pub open spec fn decode_spec(vt: ValueType, s: Seq<u8>) -> int {
    let u = le_val(s) as int;
    if vt.signed_spec() && 2 * u >= pow256(vt.size_spec()) {
        u - pow256(vt.size_spec())
    } else {
        u
    }
}

/// Decodes a window of exactly `vt.size()` bytes.
pub fn decode_value(vt: ValueType, bytes: &Vec<u8>) -> (v: i128)
    requires
        bytes@.len() == vt.size_spec(),
    ensures
        v == decode_spec(vt, bytes@),
{
    proof {
        lemma_pow256_values();
    }
    let n = bytes.len();
    let mut acc: u64 = 0;
    let mut k: usize = 0;
    while k < n
        invariant
            n == bytes@.len(),
            n <= 8,
            k <= n,
            acc == le_val(bytes@.subrange(n - k, n as int)),
            acc < pow256(k as nat),
            pow256(8) == 0x1_0000_0000_0000_0000,
        decreases n - k,
    {
        proof {
            let t = bytes@.subrange(n - k - 1, n as int);
            assert(t.drop_first() =~= bytes@.subrange(n - k, n as int));
            assert(le_val(t) == (bytes@[n - k - 1] as nat) + 256 * le_val(t.drop_first()));
            lemma_le_val_bound(t);
            assert(pow256((k + 1) as nat) == 256 * pow256(k as nat));
            lemma_pow256_mono(k as nat, 7);
        }
        acc = acc * 256 + (bytes[n - 1 - k] as u64);
        k = k + 1;
    }
    proof {
        assert(bytes@.subrange(0, n as int) =~= bytes@);
        lemma_le_val_bound(bytes@);
    }
    match vt {
        ValueType::Int8 => if acc >= 0x80 { acc as i128 - 0x100 } else { acc as i128 },
        ValueType::Int16 => if acc >= 0x8000 { acc as i128 - 0x10000 } else { acc as i128 },
        ValueType::Int32 => if acc >= 0x8000_0000 { acc as i128 - 0x1_0000_0000 } else { acc as i128 },
        ValueType::Int64 => if acc >= 0x8000_0000_0000_0000 {
            acc as i128 - 0x1_0000_0000_0000_0000
        } else {
            acc as i128
        },
        ValueType::UInt8 | ValueType::UInt16 | ValueType::UInt32 | ValueType::UInt64 => acc as i128,
    }
}

/// `256^a <= 256^b` when `a <= b`.
pub proof fn lemma_pow256_mono(a: nat, b: nat)
    requires
        a <= b,
    ensures
        pow256(a) <= pow256(b),
    decreases b,
{
    if a < b {
        lemma_pow256_mono(a, (b - 1) as nat);
    }
}

/// Comparison semantics of a scan or filter round.  `Exact` and `InRange`
/// judge the freshly read value alone; `Changed`, `Unchanged`, `Increased`
/// and `Decreased` judge it against the value stored for the candidate in
/// the previous round.
#[derive(Clone, Copy, Debug, PartialEq, Eq, Structural)]
pub enum Comparison {
    Exact(i128),
    InRange(i128, i128),
    Changed,
    Unchanged,
    Increased,
    Decreased,
}

/// Whether a first-scan read satisfies the comparison.  Trend comparisons
/// have no previous value to judge against on a first scan, so they hold of
/// no address.
pub open spec fn matches_first(cmp: Comparison, v: int) -> bool {
    match cmp {
        Comparison::Exact(x) => v == x,
        Comparison::InRange(lo, hi) => lo <= v <= hi,
        _ => false,
    }
}

/// Whether a filter-round read `cur` satisfies the comparison, given the
/// value `prev` stored for the candidate.
pub open spec fn matches_filter(cmp: Comparison, cur: int, prev: int) -> bool {
    match cmp {
        Comparison::Exact(x) => cur == x,
        Comparison::InRange(lo, hi) => lo <= cur <= hi,
        Comparison::Changed => cur != prev,
        Comparison::Unchanged => cur == prev,
        Comparison::Increased => cur > prev,
        Comparison::Decreased => cur < prev,
    }
}

/// Evaluates a first-scan comparison.
pub fn eval_first(cmp: Comparison, v: i128) -> (r: bool)
    ensures
        r == matches_first(cmp, v as int),
{
    match cmp {
        Comparison::Exact(x) => v == x,
        Comparison::InRange(lo, hi) => lo <= v && v <= hi,
        _ => false,
    }
}

/// Evaluates a filter-round comparison.
pub fn eval_filter(cmp: Comparison, cur: i128, prev: i128) -> (r: bool)
    ensures
        r == matches_filter(cmp, cur as int, prev as int),
{
    match cmp {
        Comparison::Exact(x) => cur == x,
        Comparison::InRange(lo, hi) => lo <= cur && cur <= hi,
        Comparison::Changed => cur != prev,
        Comparison::Unchanged => cur == prev,
        Comparison::Increased => cur > prev,
        Comparison::Decreased => cur < prev,
    }
}

} // verus!
