//! Runtime support for a freestanding environment: a first-fit arena
//! allocator with coalescing, byte-string primitives and passive descriptor
//! records.

use vstd::prelude::*;

pub mod arena;
pub mod cstr;
pub mod heap;
pub mod laws;
pub mod layout;
pub mod model;
pub mod repr;
pub mod requests;
pub mod scan;
pub mod stat;
pub mod steady;

pub use crate::cstr::{
    atoi, memcmp, memcpy, memmove, memset, strchr, strcmp, strlcpy, strlen,
};
use crate::heap::Heap;
use crate::layout::UNIT;
pub use crate::stat::{FileType, Stat};

verus! {

/// Allocates `n` bytes from the heap: the payload offset of the block that
/// serves the request, or `None` when the heap is out of memory.
pub fn malloc(heap: &mut Heap, n: usize) -> (p: Option<usize>)
    requires
        old(heap).wf(),
    ensures
        final(heap).wf(),
        final(heap)@ == old(heap)@.allocate(n as int),
        match p {
            Some(q) => old(heap)@.can_allocate(n as int) && q == old(heap)@.allocation(n as int),
            None => !old(heap)@.can_allocate(n as int),
        },
        p matches Some(q) ==> {
            &&& q % UNIT == 0
            &&& !old(heap)@.is_live(q as int)
            &&& final(heap)@.is_live(q as int)
            &&& final(heap)@.usable_size(q as int) >= n
            &&& q + final(heap)@.usable_size(q as int) <= final(heap)@.high_water()
        },
        p is None ==> final(heap).memory() == old(heap).memory() && final(heap).links() == old(
            heap,
        ).links(),
        forall|q: int|
            old(heap)@.is_live(q) ==> #[trigger] final(heap).contents(q) == old(heap).contents(q),
{
    match heap.allocate(n) {
        Ok(q) => Some(q),
        Err(_) => None,
    }
}

/// Gives the payload at `p`, which `malloc` handed out and which was not
/// freed since, back to the heap.
pub fn free(heap: &mut Heap, p: usize)
    requires
        old(heap).wf(),
        old(heap)@.is_live(p as int),
    ensures
        final(heap).wf(),
        final(heap)@ == old(heap)@.release(p as int),
        final(heap)@.high_water() == old(heap)@.high_water(),
        final(heap)@.live() == old(heap)@.live().remove(p as int),
        forall|q: int|
            old(heap)@.is_live(q) && q != p ==> #[trigger] final(heap).contents(q) == old(
                heap,
            ).contents(q),
{
    heap.release(p)
}

/// What becomes of a thread of execution once a panic has been raised.
#[derive(Clone, Copy, Debug, PartialEq, Eq, Structural)]
pub enum PanicAction {
    /// Stop making progress: stay in place, without unwinding or returning.
    Halt,
}

/// Panic policy of the runtime. There is no unwinding machinery and no host
/// to report to, so a panic halts its thread for good, whatever raised it.
pub fn panic() -> (action: PanicAction)
    ensures
        action == PanicAction::Halt,
{
    PanicAction::Halt
}

} // verus!
