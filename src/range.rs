//! Slice bounds and their normalisation against a known length.
use vstd::prelude::*;

verus! {

/// The bounds of a slice. Each bound may be negative, counting from the end.
/// At least one bound is always present: there is no bound-less variant.
#[derive(PartialEq, Eq, Structural, Debug, Clone, Copy)]
pub enum Bounds {
    Both(i32, i32),
    Lower(i32),
    Upper(i32),
}

/// A slice range `[lower:upper]` with optional ends.
#[derive(PartialEq, Eq, Structural, Debug, Clone, Copy)]
pub struct Range {
    pub bounds: Bounds,
}

/// One bound mapped onto `0..=len`: a negative bound counts from the end and
/// stops at `0`; a non-negative one stops at `len`.
pub open spec fn clamp_bound(b: int, len: int) -> int {
    if b < 0 {
        if -b > len {
            0
        } else {
            len + b
        }
    } else if b > len {
        len
    } else {
        b
    }
}

/// The concrete half-open span `(start, end)` of a range over `len` items.
/// A missing lower bound is `0`, a missing upper bound is `len`; `start > end`
/// stands for an empty span.
pub open spec fn span(r: Range, len: int) -> (int, int) {
    match r.bounds {
        Bounds::Both(l, u) => (clamp_bound(l as int, len), clamp_bound(u as int, len)),
        Bounds::Lower(l) => (clamp_bound(l as int, len), len),
        Bounds::Upper(u) => (0, clamp_bound(u as int, len)),
    }
}

fn normalize_bound(b: i32, len: usize) -> (r: usize)
    ensures
        r == clamp_bound(b as int, len as int),
{
    if b < 0 {
        let u: u64 = (-(b as i64)) as u64;
        if u as u128 > len as u128 {
            0
        } else {
            len - (u as usize)
        }
    } else {
        let u: u64 = b as u64;
        if u as u128 > len as u128 {
            len
        } else {
            u as usize
        }
    }
}

impl Range {
    /// Both bounds given.
    pub fn new(bounds: (i32, i32)) -> (r: Range)
        ensures
            r.bounds == Bounds::Both(bounds.0, bounds.1),
    {
        Range { bounds: Bounds::Both(bounds.0, bounds.1) }
    }

    /// Only the lower bound given: `[i:]`.
    pub fn lower(i: i32) -> (r: Range)
        ensures
            r.bounds == Bounds::Lower(i),
    {
        Range { bounds: Bounds::Lower(i) }
    }

    /// Only the upper bound given: `[:i]`.
    pub fn upper(i: i32) -> (r: Range)
        ensures
            r.bounds == Bounds::Upper(i),
    {
        Range { bounds: Bounds::Upper(i) }
    }

    /// The concrete span over `len` items; both ends lie in `0..=len`, and
    /// `start >= end` means an empty slice.
    pub fn normalize(&self, len: usize) -> (r: std::ops::Range<usize>)
        ensures
            r.start as int == span(*self, len as int).0,
            r.end as int == span(*self, len as int).1,
            r.start <= len,
            r.end <= len,
    {
        match self.bounds {
            Bounds::Both(l, u) => normalize_bound(l, len)..normalize_bound(u, len),
            Bounds::Lower(l) => normalize_bound(l, len)..len,
            Bounds::Upper(u) => 0..normalize_bound(u, len),
        }
    }
}

} // verus!
