//! Arena geometry: the allocation unit, the rounding of requests, and the
//! one place where a header offset and a payload offset are turned into each
//! other.

use vstd::prelude::*;

verus! {

/// Size in bytes of a block header, and the granule in which payloads are
/// measured. Every header offset, payload offset and payload size is a
/// multiple of it, which also makes it the alignment of every payload.
pub const UNIT: usize = 16;

/// `x` is a whole number of units.
pub closed spec fn aligned(x: int) -> bool {
    x % (UNIT as int) == 0
}

/// Being aligned is being a multiple of the unit.
pub proof fn lemma_aligned(x: int)
    ensures
        aligned(x) <==> x % (UNIT as int) == 0,
{
}

/// Nothing and one unit are whole numbers of units.
pub proof fn lemma_aligned_unit()
    ensures
        aligned(0),
        aligned(UNIT as int),
{
}

/// Sums and differences of whole numbers of units are such numbers.
pub proof fn lemma_aligned_sum(a: int, b: int)
    requires
        aligned(a),
        aligned(b),
    ensures
        aligned(a + b),
        aligned(a - b),
{
}

/// Payload size that serves a request of `n` bytes: the least positive
/// multiple of [`UNIT`] that is at least `n`.
pub open spec fn rounded(n: int) -> int {
    if n <= UNIT {
        UNIT as int
    } else {
        ((n + UNIT - 1) / (UNIT as int)) * UNIT
    }
}

/// The rounded size is a positive multiple of the unit, holds the request,
/// and wastes less than one unit.
pub proof fn lemma_rounded(n: int)
    ensures
        rounded(n) >= UNIT,
        rounded(n) % (UNIT as int) == 0,
        aligned(rounded(n)),
        rounded(n) >= n,
        n >= 1 ==> rounded(n) < n + UNIT,
{
}

/// A positive multiple of the unit is its own rounding.
pub proof fn lemma_rounded_exact(n: int)
    requires
        n >= UNIT,
        aligned(n),
    ensures
        rounded(n) == n,
{
}

/// Rounding never shrinks with the request.
pub proof fn lemma_rounded_monotonic(m: int, n: int)
    requires
        m <= n,
    ensures
        rounded(m) <= rounded(n),
{
}

/// Rounds a request up to whole units, or reports that the rounded size does
/// not fit the machine word.
pub fn round_up(n: usize) -> (need: Option<usize>)
    ensures
        need matches Some(v) ==> v == rounded(n as int),
        need is None <==> rounded(n as int) > usize::MAX,
{
    if n <= UNIT {
        Some(UNIT)
    } else if n > usize::MAX - (UNIT - 1) {
        assert(usize::MAX == 0xffff_ffff || usize::MAX == 0xffff_ffff_ffff_ffff);
        None
    } else {
        let units: usize = (n + (UNIT - 1)) / UNIT;
        Some(units * UNIT)
    }
}

/// Offset of the payload that follows the header at `header`.
pub open spec fn payload_of(header: int) -> int {
    header + UNIT
}

/// Offset of the header that precedes the payload at `payload`.
pub open spec fn header_of(payload: int) -> int {
    payload - UNIT
}

/// Steps from a header to its payload.
pub fn payload_offset(header: usize) -> (payload: usize)
    requires
        header + UNIT <= usize::MAX,
    ensures
        payload == payload_of(header as int),
{
    header + UNIT
}

/// Recovers a header from its payload: the fixed step back that lets a
/// release work from the payload offset alone.
pub fn header_offset(payload: usize) -> (header: usize)
    requires
        payload >= UNIT,
    ensures
        header == header_of(payload as int),
{
    payload - UNIT
}

} // verus!
