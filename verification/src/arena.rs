//! Block headers as they lie in the arena's bytes.
//!
//! A header takes one unit. Its first eight bytes hold the payload size,
//! least significant byte first; the ninth is the tag, zero for a used block
//! and non-zero for a free one; the rest of the unit is reserved.

use vstd::prelude::*;
use crate::layout::UNIT;

verus! {

/// The eight bytes from `at` on, read as a little-endian number.
pub open spec fn word_at(bytes: Seq<u8>, at: int) -> int {
    bytes[at] + 256 * (bytes[at + 1] + 256 * (bytes[at + 2] + 256 * (bytes[at + 3] + 256 * (bytes[at
        + 4] + 256 * (bytes[at + 5] + 256 * (bytes[at + 6] + 256 * bytes[at + 7]))))))
}

/// Payload size recorded in the header at `at`.
pub closed spec fn header_size(bytes: Seq<u8>, at: int) -> int {
    word_at(bytes, at)
}

/// Whether the header at `at` is tagged free.
pub closed spec fn header_free(bytes: Seq<u8>, at: int) -> bool {
    bytes[at + 8] != 0
}

/// `after` is `before` with the header at `at` rewritten to `size` and `free`,
/// and no byte outside that header's unit changed.
pub open spec fn header_written(before: Seq<u8>, after: Seq<u8>, at: int, size: int, free: bool) -> bool {
    &&& after.len() == before.len()
    &&& header_size(after, at) == size
    &&& header_free(after, at) == free
    &&& forall|x: int| 0 <= x < before.len() && !(at <= x < at + UNIT) ==> #[trigger] after[x] == before[x]
}

/// A header depends on the bytes of its own unit only.
pub proof fn lemma_header_frame(before: Seq<u8>, after: Seq<u8>, at: int)
    requires
        forall|x: int| at <= x < at + UNIT ==> #[trigger] after[x] == before[x],
    ensures
        header_size(after, at) == header_size(before, at),
        header_free(after, at) == header_free(before, at),
{
}

/// Reads the payload size from the header at `at`.
pub fn read_size(arena: &Vec<u8>, at: usize) -> (size: u64)
    requires
        at + UNIT <= arena.len(),
    ensures
        size == header_size(arena@, at as int),
{
    let b0: u64 = arena[at] as u64;
    let b1: u64 = arena[at + 1] as u64;
    let b2: u64 = arena[at + 2] as u64;
    let b3: u64 = arena[at + 3] as u64;
    let b4: u64 = arena[at + 4] as u64;
    let b5: u64 = arena[at + 5] as u64;
    let b6: u64 = arena[at + 6] as u64;
    let b7: u64 = arena[at + 7] as u64;
    b0 + 256 * (b1 + 256 * (b2 + 256 * (b3 + 256 * (b4 + 256 * (b5 + 256 * (b6 + 256 * b7))))))
}

/// Reads the tag from the header at `at`.
pub fn read_free(arena: &Vec<u8>, at: usize) -> (free: bool)
    requires
        at + UNIT <= arena.len(),
    ensures
        free == header_free(arena@, at as int),
{
    arena[at + 8] != 0
}

/// Writes the header at `at`, touching no byte outside its unit.
pub fn write_header(arena: &mut Vec<u8>, at: usize, size: u64, free: bool)
    requires
        at + UNIT <= old(arena).len(),
    ensures
        header_written(old(arena)@, final(arena)@, at as int, size as int, free),
{
    let q1: u64 = size / 256;
    let q2: u64 = q1 / 256;
    let q3: u64 = q2 / 256;
    let q4: u64 = q3 / 256;
    let q5: u64 = q4 / 256;
    let q6: u64 = q5 / 256;
    let q7: u64 = q6 / 256;
    arena.set(at, (size % 256) as u8);
    arena.set(at + 1, (q1 % 256) as u8);
    arena.set(at + 2, (q2 % 256) as u8);
    arena.set(at + 3, (q3 % 256) as u8);
    arena.set(at + 4, (q4 % 256) as u8);
    arena.set(at + 5, (q5 % 256) as u8);
    arena.set(at + 6, (q6 % 256) as u8);
    arena.set(at + 7, q7 as u8);
    arena.set(at + 8, if free { 1u8 } else { 0u8 });
}

} // verus!
