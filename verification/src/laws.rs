//! What holds of every heap, whatever was allocated and released before.

use vstd::prelude::*;
use crate::layout::{
    header_of, lemma_aligned, lemma_aligned_sum, lemma_aligned_unit, lemma_rounded,
    lemma_rounded_exact, lemma_rounded_monotonic, rounded, UNIT,
};
use crate::model::{
    carved, chained, first_fit, high_water, lemma_below_high_water, lemma_block_aligned,
    lemma_carved, lemma_chained_index_order, lemma_chained_ordered, lemma_first_fit,
    lemma_high_water_aligned, lemma_span, lemma_taken, lemma_freed, lemma_placed,
    lemma_splice_coalesced, lemma_splice_index, lemma_splice_tiled, lemma_start_in_span,
    merge_from, merge_to, span, splice, taken, tiled, Block, HeapView,
};

verus! {

/// After a splice, the live payloads within the room of the replaced blocks
/// are those of the pieces, and the live payloads elsewhere are untouched.
pub proof fn lemma_splice_live(
    capacity: int,
    blocks: Seq<Block>,
    lo: int,
    hi: int,
    pieces: Seq<Block>,
    q: int,
)
    requires
        tiled(blocks),
        0 <= lo < hi <= blocks.len(),
        chained(pieces),
        pieces.len() > 0,
        pieces[0].start == blocks[lo].start,
        pieces.last().end() == blocks[hi - 1].end(),
    ensures
        ({
            let v = HeapView { capacity, blocks };
            let w = HeapView { capacity, blocks: splice(blocks, lo, hi, pieces) };
            let part = HeapView { capacity, blocks: pieces };
            let inside = blocks[lo].start <= header_of(q) < blocks[hi - 1].end();
            &&& w.is_live(q) <==> (if inside {
                part.is_live(q)
            } else {
                v.is_live(q)
            })
            &&& w.is_live(q) ==> w.usable_size(q) == (if inside {
                part.usable_size(q)
            } else {
                v.usable_size(q)
            })
        }),
{
    let row = splice(blocks, lo, hi, pieces);
    let n = pieces.len() as int;
    let v = HeapView { capacity, blocks };
    let w = HeapView { capacity, blocks: row };
    let part = HeapView { capacity, blocks: pieces };
    let inside = blocks[lo].start <= header_of(q) < blocks[hi - 1].end();
    lemma_splice_index(blocks, lo, hi, pieces);
    lemma_splice_tiled(blocks, lo, hi, pieces);
    if w.is_live(q) {
        let j = choose|j: int| #[trigger] w.live_at(j, q);
        w.lemma_index_of(j, q);
        if j < lo {
            assert(row[j] == blocks[j]);
            lemma_chained_index_order(blocks, j, lo);
            assert(v.live_at(j, q));
            v.lemma_index_of(j, q);
        } else if j < lo + n {
            assert(row[j] == pieces[j - lo]);
            lemma_chained_index_order(pieces, 0, j - lo);
            lemma_below_high_water(pieces, j - lo);
            assert(part.live_at(j - lo, q));
            part.lemma_index_of(j - lo, q);
        } else {
            let i = j - lo - n + hi;
            assert(row[j] == blocks[i]);
            lemma_chained_ordered(blocks, hi - 1, i);
            assert(v.live_at(i, q));
            v.lemma_index_of(i, q);
        }
    }
    if inside && part.is_live(q) {
        let j = choose|j: int| #[trigger] part.live_at(j, q);
        assert(row[lo + j] == pieces[j]);
        assert(w.live_at(lo + j, q));
    }
    if !inside && v.is_live(q) {
        let i = choose|i: int| #[trigger] v.live_at(i, q);
        lemma_chained_index_order(blocks, i, lo);
        lemma_chained_index_order(blocks, i, hi - 1);
        if i < lo {
            assert(row[i] == blocks[i]);
            assert(w.live_at(i, q));
        } else {
            assert(i >= hi);
            assert(row[i - hi + lo + n] == blocks[i]);
            assert(w.live_at(i - hi + lo + n, q));
        }
    }
}

/// An allocation that is served leaves the heap well formed, hands out a
/// payload that was not live before, and leaves every live payload live,
/// with the length it had.
pub proof fn lemma_allocate_live(v: HeapView, n: int, q: int)
    requires
        v.wf(),
        v.can_allocate(n),
    ensures
        v.allocate(n).wf(),
        v.allocate(n).capacity == v.capacity,
        !v.is_live(v.allocation(n)),
        v.allocate(n).is_live(q) <==> v.is_live(q) || q == v.allocation(n),
        v.is_live(q) ==> v.allocate(n).usable_size(q) == v.usable_size(q),
{
    let need = rounded(n);
    let blocks = v.blocks;
    let w = v.allocate(n);
    let p = v.allocation(n);
    let i = first_fit(blocks, need, 0);
    lemma_rounded(n);
    lemma_first_fit(blocks, need, 0);
    if i < blocks.len() {
        let b = blocks[i];
        let pieces = taken(b, need);
        let part = HeapView { capacity: v.capacity, blocks: pieces };
        lemma_placed(blocks, i, need);
        assert(b.well_sized());
        lemma_taken(b, need);
        lemma_splice_live(v.capacity, blocks, i, i + 1, pieces, q);
        lemma_splice_live(v.capacity, blocks, i, i + 1, pieces, p);
        assert(part.live_at(0, p));
        if part.is_live(q) {
            let j = choose|j: int| #[trigger] part.live_at(j, q);
            assert(j == 0);
        }
        if v.is_live(q) {
            let j = choose|j: int| #[trigger] v.live_at(j, q);
            if b.start <= header_of(q) < b.end() {
                lemma_start_in_span(blocks, i, i, j);
            }
        }
        if v.is_live(p) {
            let j = choose|j: int| #[trigger] v.live_at(j, p);
            lemma_chained_index_order(blocks, i, j);
        }
    } else {
        let row = carved(blocks, need);
        lemma_carved(blocks, need);
        assert(w.live_at(blocks.len() as int, p));
        if v.is_live(p) {
            let j = choose|j: int| #[trigger] v.live_at(j, p);
            lemma_below_high_water(blocks, j);
        }
        if v.is_live(q) {
            let j = choose|j: int| #[trigger] v.live_at(j, q);
            assert(row[j] == blocks[j]);
            assert(w.live_at(j, q));
            v.lemma_index_of(j, q);
            w.lemma_index_of(j, q);
        }
        if w.is_live(q) {
            let j = choose|j: int| #[trigger] w.live_at(j, q);
            if j < blocks.len() {
                assert(row[j] == blocks[j]);
                assert(v.live_at(j, q));
            }
        }
    }
}

/// An allocation that is served hands out an aligned payload inside the
/// arena that holds the request: its usable length is the request rounded
/// up to whole units, or the whole of the block it was found in.
pub proof fn lemma_allocation_serves(v: HeapView, n: int)
    requires
        v.wf(),
        v.can_allocate(n),
    ensures
        v.allocation(n) % (UNIT as int) == 0,
        v.allocation(n) >= UNIT,
        v.allocate(n).is_live(v.allocation(n)),
        v.allocate(n).usable_size(v.allocation(n)) >= rounded(n),
        v.allocate(n).usable_size(v.allocation(n)) >= n,
        v.allocation(n) + v.allocate(n).usable_size(v.allocation(n)) <= v.allocate(n).high_water(),
        v.allocate(n).high_water() <= v.capacity,
{
    let need = rounded(n);
    let blocks = v.blocks;
    let w = v.allocate(n);
    let p = v.allocation(n);
    let i = first_fit(blocks, need, 0);
    lemma_rounded(n);
    lemma_first_fit(blocks, need, 0);
    lemma_allocate_live(v, n, p);
    if i < blocks.len() {
        lemma_splice_index(blocks, i, i + 1, taken(blocks[i], need));
        assert(blocks[i].well_sized());
        lemma_taken(blocks[i], need);
        lemma_block_aligned(blocks[i]);
        lemma_aligned(p);
        assert(w.live_at(i, p));
        w.lemma_index_of(i, p);
        lemma_below_high_water(w.blocks, i);
    } else {
        lemma_high_water_aligned(blocks);
        lemma_aligned_unit();
        lemma_aligned_sum(high_water(blocks), UNIT as int);
        lemma_aligned(p);
        assert(w.live_at(blocks.len() as int, p));
        w.lemma_index_of(blocks.len() as int, p);
    }
}

/// A release leaves the heap well formed and the high-water mark in place,
/// ends the life of the released payload, and leaves every other live
/// payload live, with the length it had.
pub proof fn lemma_release_live(v: HeapView, p: int, q: int)
    requires
        v.wf(),
        v.is_live(p),
    ensures
        v.release(p).wf(),
        v.release(p).capacity == v.capacity,
        v.release(p).high_water() == v.high_water(),
        v.release(p).is_live(q) <==> v.is_live(q) && q != p,
        v.release(p).is_live(q) ==> v.release(p).usable_size(q) == v.usable_size(q),
{
    let blocks = v.blocks;
    let w = choose|w: int| #[trigger] v.live_at(w, p);
    v.lemma_index_of(w, p);
    let i = v.index_of(p);
    let lo = merge_from(blocks, i);
    let hi = merge_to(blocks, i);
    let pieces = seq![span(blocks, lo, hi)];
    let part = HeapView { capacity: v.capacity, blocks: pieces };
    lemma_freed(blocks, i);
    lemma_span(blocks, lo, hi);
    lemma_splice_live(v.capacity, blocks, lo, hi + 1, pieces, q);
    if part.is_live(q) {
        let j = choose|j: int| #[trigger] part.live_at(j, q);
        assert(j == 0);
    }
    if v.is_live(q) {
        let j = choose|j: int| #[trigger] v.live_at(j, q);
        if blocks[lo].start <= header_of(q) < blocks[hi].end() {
            lemma_start_in_span(blocks, lo, hi, j);
            assert(j == i);
        } else {
            lemma_chained_index_order(blocks, i, j);
        }
    }
}

/// Two live payloads never overlap, and each lies inside the carved part of
/// the arena, behind a header of its own.
pub proof fn lemma_live_disjoint(v: HeapView, p: int, q: int)
    requires
        v.wf(),
        v.is_live(p),
        v.is_live(q),
        p != q,
    ensures
        p + v.usable_size(p) + UNIT <= q || q + v.usable_size(q) + UNIT <= p,
        UNIT <= p,
        p + v.usable_size(p) <= v.high_water(),
        v.high_water() <= v.capacity,
{
    let i = choose|i: int| #[trigger] v.live_at(i, p);
    let j = choose|j: int| #[trigger] v.live_at(j, q);
    v.lemma_index_of(i, p);
    v.lemma_index_of(j, q);
    lemma_below_high_water(v.blocks, i);
    if i < j {
        lemma_chained_ordered(v.blocks, i, j);
    } else {
        lemma_chained_ordered(v.blocks, j, i);
    }
}

/// Where some free block holds the rounded request, the request is served
/// from the free list and the high-water mark stays in place.
pub proof fn lemma_served_without_carving(v: HeapView, k: int, n: int)
    requires
        v.wf(),
        0 <= k < v.blocks.len(),
        v.blocks[k].fits(rounded(n)),
    ensures
        first_fit(v.blocks, rounded(n), 0) <= k,
        v.can_allocate(n),
        v.allocate(n).wf(),
        v.allocate(n).high_water() == v.high_water(),
{
    let need = rounded(n);
    lemma_rounded(n);
    lemma_first_fit(v.blocks, need, 0);
    let f = first_fit(v.blocks, need, 0);
    if f > k {
        assert(!v.blocks[k].fits(need));
    }
    lemma_placed(v.blocks, f, need);
}

/// Round trip: once a request was served and its payload released again,
/// the same request is served from the free list, without carving: the
/// high-water mark stays where the first allocation left it.
pub proof fn lemma_round_trip_reuse(v: HeapView, n: int)
    requires
        v.wf(),
        v.can_allocate(n),
    ensures
        ({
            let served = v.allocate(n);
            let released = served.release(v.allocation(n));
            &&& released.wf()
            &&& released.can_allocate(n)
            &&& first_fit(released.blocks, rounded(n), 0) < released.blocks.len()
            &&& released.allocate(n).high_water() == served.high_water()
            &&& released.allocate(n).usable_size(released.allocation(n)) >= n
        }),
{
    let served = v.allocate(n);
    let p = v.allocation(n);
    let released = served.release(p);
    let need = rounded(n);
    lemma_rounded(n);
    lemma_allocate_live(v, n, p);
    lemma_allocation_serves(v, n);
    lemma_release_live(served, p, p);
    let w = choose|w: int| #[trigger] served.live_at(w, p);
    served.lemma_index_of(w, p);
    let i = served.index_of(p);
    let lo = merge_from(served.blocks, i);
    let hi = merge_to(served.blocks, i);
    let pieces = seq![span(served.blocks, lo, hi)];
    lemma_splice_index(served.blocks, lo, hi + 1, pieces);
    if lo < i {
        lemma_chained_ordered(served.blocks, lo, i);
    }
    if i < hi {
        lemma_chained_ordered(served.blocks, i, hi);
    }
    lemma_span(served.blocks, lo, hi);
    assert(served.blocks[lo].well_sized() && served.blocks[hi].well_sized());
    assert(released.blocks[lo] == pieces[0]);
    assert(released.blocks[lo].fits(need));
    lemma_first_fit(released.blocks, need, 0);
    let f = first_fit(released.blocks, need, 0);
    assert(f < released.blocks.len()) by {
        if f >= released.blocks.len() {
            assert(!released.blocks[lo].fits(need));
        }
    }
    lemma_placed(released.blocks, f, need);
    lemma_allocation_serves(released, n);
}

/// In two well-formed heaps with the same live payloads, blocks that start
/// at the same offset and are in use in the first are equal.
proof fn lemma_same_used_block(v: HeapView, w: HeapView, m: int)
    requires
        v.wf(),
        w.wf(),
        v.live() == w.live(),
        0 <= m < v.blocks.len(),
        m < w.blocks.len(),
        v.blocks[m].start == w.blocks[m].start,
        !v.blocks[m].free,
    ensures
        v.blocks[m] == w.blocks[m],
{
    let q = v.blocks[m].payload();
    assert(v.live_at(m, q));
    assert(v.live().dom().contains(q));
    assert(w.live().dom().contains(q));
    assert(w.is_live(q));
    let j = choose|j: int| #[trigger] w.live_at(j, q);
    lemma_chained_index_order(w.blocks, j, m);
    v.lemma_index_of(m, q);
    w.lemma_index_of(m, q);
    assert(v.live()[q] == v.usable_size(q));
    assert(w.live()[q] == w.usable_size(q));
}

/// In two well-formed heaps with the same live payloads, of two free blocks
/// that start at the same offset the first does not end before the second.
proof fn lemma_free_block_reaches(v: HeapView, w: HeapView, m: int)
    requires
        v.wf(),
        w.wf(),
        v.high_water() == w.high_water(),
        v.live() == w.live(),
        0 <= m < v.blocks.len(),
        m < w.blocks.len(),
        v.blocks[m].start == w.blocks[m].start,
        v.blocks[m].free,
        w.blocks[m].free,
    ensures
        v.blocks[m].end() >= w.blocks[m].end(),
{
    if v.blocks[m].end() < w.blocks[m].end() {
        lemma_below_high_water(w.blocks, m);
        lemma_below_high_water(v.blocks, m);
        assert(m + 1 < v.blocks.len());
        assert(v.blocks[m + 1].start == v.blocks[m].end());
        assert(!(v.blocks[m].free && v.blocks[m + 1].free));
        let q = v.blocks[m + 1].payload();
        assert(v.live_at(m + 1, q));
        assert(v.live().dom().contains(q));
        assert(w.live().dom().contains(q));
        assert(w.is_live(q));
        let j = choose|j: int| #[trigger] w.live_at(j, q);
        assert(v.blocks[m].well_sized());
        lemma_start_in_span(w.blocks, m, m, j);
    }
}

/// Two well-formed heaps with the same high-water mark and the same live
/// payloads agree on their first `k` blocks.
proof fn lemma_same_prefix(v: HeapView, w: HeapView, k: int)
    requires
        v.wf(),
        w.wf(),
        v.high_water() == w.high_water(),
        v.live() == w.live(),
        0 <= k <= v.blocks.len(),
    ensures
        k <= w.blocks.len(),
        forall|j: int| 0 <= j < k ==> v.blocks[j] == w.blocks[j],
    decreases k,
{
    if k > 0 {
        lemma_same_prefix(v, w, k - 1);
        let m = k - 1;
        lemma_below_high_water(v.blocks, m);
        assert(v.blocks[m].well_sized());
        if m > 0 {
            assert(v.blocks[m].start == v.blocks[m - 1].end());
            assert(v.blocks[m - 1] == w.blocks[m - 1]);
        }
        assert(m < w.blocks.len());
        if m > 0 {
            assert(w.blocks[m].start == w.blocks[m - 1].end());
        }
        if !v.blocks[m].free {
            lemma_same_used_block(v, w, m);
        } else if !w.blocks[m].free {
            lemma_same_used_block(w, v, m);
        } else {
            lemma_free_block_reaches(v, w, m);
            lemma_free_block_reaches(w, v, m);
        }
    }
}

/// A well-formed heap is determined by the size of its arena, its
/// high-water mark and its live payloads: the free space between them can
/// be laid out in one way only.
pub proof fn lemma_determined(v: HeapView, w: HeapView)
    requires
        v.wf(),
        w.wf(),
        v.capacity == w.capacity,
        v.high_water() == w.high_water(),
        v.live() == w.live(),
    ensures
        v == w,
{
    lemma_same_prefix(v, w, v.blocks.len() as int);
    lemma_same_prefix(w, v, w.blocks.len() as int);
    assert(v.blocks =~= w.blocks);
}

/// The live payloads after a served allocation are those before it, and the
/// one handed out.
pub proof fn lemma_allocate_inserts(v: HeapView, n: int)
    requires
        v.wf(),
        v.can_allocate(n),
    ensures
        v.allocate(n).live() == v.live().insert(
            v.allocation(n),
            v.allocate(n).usable_size(v.allocation(n)),
        ),
{
    let p = v.allocation(n);
    let w = v.allocate(n);
    let grown = v.live().insert(p, w.usable_size(p));
    assert forall|q: int| w.live().dom().contains(q) == grown.dom().contains(q) by {
        lemma_allocate_live(v, n, q);
    }
    assert forall|q: int| #[trigger] w.live().dom().contains(q) implies w.live()[q] == grown[q] by {
        lemma_allocate_live(v, n, q);
    }
    assert(w.live() =~= grown);
}

/// The live payloads after a release are those before it, without the one
/// released.
pub proof fn lemma_release_removes(v: HeapView, p: int)
    requires
        v.wf(),
        v.is_live(p),
    ensures
        v.release(p).wf(),
        v.release(p).capacity == v.capacity,
        v.release(p).high_water() == v.high_water(),
        v.release(p).live() == v.live().remove(p),
{
    lemma_release_live(v, p, p);
    assert forall|q: int|
        v.release(p).live().dom().contains(q) == v.live().remove(p).dom().contains(q) by {
        lemma_release_live(v, p, q);
    }
    assert forall|q: int| #[trigger]
        v.release(p).live().dom().contains(q) implies v.release(p).live()[q] == v.live().remove(
        p,
    )[q] by {
        lemma_release_live(v, p, q);
    }
    assert(v.release(p).live() =~= v.live().remove(p));
}

/// The order of two releases does not matter.
pub proof fn lemma_release_commutes(v: HeapView, p: int, q: int)
    requires
        v.wf(),
        v.is_live(p),
        v.is_live(q),
        p != q,
    ensures
        v.release(p).is_live(q),
        v.release(q).is_live(p),
        v.release(p).release(q) == v.release(q).release(p),
{
    lemma_release_live(v, p, q);
    lemma_release_live(v, q, p);
    lemma_release_removes(v, p);
    lemma_release_removes(v, q);
    lemma_release_removes(v.release(p), q);
    lemma_release_removes(v.release(q), p);
    assert(v.live().remove(p).remove(q) =~= v.live().remove(q).remove(p));
    lemma_determined(v.release(p).release(q), v.release(q).release(p));
}

/// The heap in which the blocks `i..=j`, together with the free neighbour on
/// either side, have become one free block.
pub open spec fn cleared(v: HeapView, i: int, j: int) -> HeapView {
    let lo = merge_from(v.blocks, i);
    let hi = merge_to(v.blocks, j);
    HeapView {
        capacity: v.capacity,
        blocks: splice(v.blocks, lo, hi + 1, seq![span(v.blocks, lo, hi)]),
    }
}

/// Clearing a run of used blocks leaves a well-formed heap with the same
/// high-water mark, in which one free block spans the run.
pub proof fn lemma_cleared(v: HeapView, i: int, j: int)
    requires
        v.wf(),
        0 <= i <= j < v.blocks.len(),
        !v.blocks[i].free,
        !v.blocks[j].free,
    ensures
        cleared(v, i, j).wf(),
        cleared(v, i, j).high_water() == v.high_water(),
        merge_from(v.blocks, i) < cleared(v, i, j).blocks.len(),
        cleared(v, i, j).blocks[merge_from(v.blocks, i)].fits(
            v.blocks[j].end() - v.blocks[i].start - UNIT,
        ),
{
    let blocks = v.blocks;
    let lo = merge_from(blocks, i);
    let hi = merge_to(blocks, j);
    let pieces = seq![span(blocks, lo, hi)];
    if lo < hi {
        lemma_chained_ordered(blocks, lo, hi);
    }
    if lo < i {
        lemma_chained_ordered(blocks, lo, i);
    }
    if j < hi {
        lemma_chained_ordered(blocks, j, hi);
    }
    assert(blocks[lo].well_sized() && blocks[hi].well_sized());
    lemma_span(blocks, lo, hi);
    lemma_splice_tiled(blocks, lo, hi + 1, pieces);
    if lo > 0 {
        assert(!(blocks[lo - 1].free && blocks[lo].free));
    }
    if hi + 1 < blocks.len() {
        assert(!(blocks[hi].free && blocks[hi + 1].free));
    }
    lemma_splice_coalesced(blocks, lo, hi + 1, pieces);
    lemma_splice_index(blocks, lo, hi + 1, pieces);
    assert(cleared(v, i, j).blocks[lo] == pieces[0]);
}

/// Clearing a run of used blocks ends the life of their payloads and of no
/// others.
pub proof fn lemma_cleared_live(v: HeapView, i: int, j: int, q: int)
    requires
        v.wf(),
        0 <= i <= j < v.blocks.len(),
        forall|x: int| i <= x <= j ==> !(#[trigger] v.blocks[x]).free,
    ensures
        cleared(v, i, j).is_live(q) <==> v.is_live(q) && !(v.blocks[i].payload() <= q
            <= v.blocks[j].payload()),
        cleared(v, i, j).is_live(q) ==> cleared(v, i, j).usable_size(q) == v.usable_size(q),
{
    let blocks = v.blocks;
    let lo = merge_from(blocks, i);
    let hi = merge_to(blocks, j);
    let pieces = seq![span(blocks, lo, hi)];
    let part = HeapView { capacity: v.capacity, blocks: pieces };
    if lo < hi {
        lemma_chained_ordered(blocks, lo, hi);
    }
    lemma_span(blocks, lo, hi);
    lemma_splice_live(v.capacity, blocks, lo, hi + 1, pieces, q);
    if part.is_live(q) {
        let x = choose|x: int| #[trigger] part.live_at(x, q);
        assert(x == 0);
    }
    if v.is_live(q) {
        let x = choose|x: int| #[trigger] v.live_at(x, q);
        lemma_chained_index_order(blocks, i, x);
        lemma_chained_index_order(blocks, j, x);
        if blocks[lo].start <= header_of(q) < blocks[hi].end() {
            lemma_start_in_span(blocks, lo, hi, x);
        } else {
            lemma_chained_index_order(blocks, lo, x);
            lemma_chained_index_order(blocks, x, hi);
        }
    }
}

/// Three releases leave the heap well formed, the high-water mark in place,
/// and live the payloads that were live before, without the three released.
proof fn lemma_three_gone(v: HeapView, a: int, c: int, b: int)
    requires
        v.wf(),
        v.is_live(a),
        v.is_live(b),
        v.is_live(c),
        a != b,
        a != c,
        b != c,
    ensures
        v.release(a).is_live(c),
        v.release(a).release(c).is_live(b),
        v.release(a).release(c).release(b).wf(),
        v.release(a).release(c).release(b).capacity == v.capacity,
        v.release(a).release(c).release(b).high_water() == v.high_water(),
        v.release(a).release(c).release(b).live() == v.live().remove(a).remove(c).remove(b),
{
    lemma_release_live(v, a, c);
    lemma_release_live(v, a, b);
    lemma_release_removes(v, a);
    lemma_release_live(v.release(a), c, b);
    lemma_release_removes(v.release(a), c);
    lemma_release_removes(v.release(a).release(c), b);
}

/// Clearing three used blocks side by side leaves live the payloads that
/// were live before, without those of the three.
proof fn lemma_cleared_three(v: HeapView, i: int)
    requires
        v.wf(),
        0 <= i,
        i + 2 < v.blocks.len(),
        !v.blocks[i].free,
        !v.blocks[i + 1].free,
        !v.blocks[i + 2].free,
    ensures
        cleared(v, i, i + 2).live() == v.live().remove(v.blocks[i].payload()).remove(
            v.blocks[i + 2].payload(),
        ).remove(v.blocks[i + 1].payload()),
{
    let blocks = v.blocks;
    let a = blocks[i].payload();
    let b = blocks[i + 1].payload();
    let c = blocks[i + 2].payload();
    let direct = cleared(v, i, i + 2);
    let gone = v.live().remove(a).remove(c).remove(b);
    assert(blocks[i + 1].start == blocks[i].end());
    assert(blocks[i + 2].start == blocks[i + 1].end());
    assert(blocks[i + 1].well_sized());
    assert forall|q: int| direct.live().dom().contains(q) == gone.dom().contains(q) by {
        lemma_cleared_run(v, i, q);
    }
    assert forall|q: int| #[trigger] direct.live().dom().contains(q) implies direct.live()[q]
        == gone[q] by {
        lemma_cleared_run(v, i, q);
    }
    assert(direct.live() =~= gone);
}

/// After three used blocks side by side were cleared, a payload is live if
/// it was live before and is none of the three, and has the length it had.
proof fn lemma_cleared_run(v: HeapView, i: int, q: int)
    requires
        v.wf(),
        0 <= i,
        i + 2 < v.blocks.len(),
        !v.blocks[i].free,
        !v.blocks[i + 1].free,
        !v.blocks[i + 2].free,
    ensures
        cleared(v, i, i + 2).is_live(q) <==> v.is_live(q) && q != v.blocks[i].payload() && q
            != v.blocks[i + 1].payload() && q != v.blocks[i + 2].payload(),
        cleared(v, i, i + 2).is_live(q) ==> cleared(v, i, i + 2).usable_size(q) == v.usable_size(
            q,
        ),
{
    let blocks = v.blocks;
    lemma_cleared_live(v, i, i + 2, q);
    if v.is_live(q) && blocks[i].payload() <= q <= blocks[i + 2].payload() {
        let x = choose|x: int| #[trigger] v.live_at(x, q);
        lemma_chained_index_order(blocks, i, x);
        lemma_chained_index_order(blocks, x, i + 2);
    }
}

/// Three used blocks side by side, released first, last and then middle,
/// leave the heap in which the three are cleared.
proof fn lemma_three_released(v: HeapView, i: int)
    requires
        v.wf(),
        0 <= i,
        i + 2 < v.blocks.len(),
        !v.blocks[i].free,
        !v.blocks[i + 1].free,
        !v.blocks[i + 2].free,
    ensures
        ({
            let a = v.blocks[i].payload();
            let b = v.blocks[i + 1].payload();
            let c = v.blocks[i + 2].payload();
            &&& v.release(a).is_live(c)
            &&& v.release(a).release(c).is_live(b)
            &&& v.release(a).release(c).release(b) == cleared(v, i, i + 2)
        }),
{
    let a = v.blocks[i].payload();
    let b = v.blocks[i + 1].payload();
    let c = v.blocks[i + 2].payload();
    assert(v.live_at(i, a) && v.live_at(i + 1, b) && v.live_at(i + 2, c));
    lemma_chained_ordered(v.blocks, i, i + 1);
    lemma_chained_ordered(v.blocks, i + 1, i + 2);
    lemma_three_gone(v, a, c, b);
    lemma_cleared(v, i, i + 2);
    lemma_cleared_three(v, i);
    lemma_determined(v.release(a).release(c).release(b), cleared(v, i, i + 2));
}

/// Once a run of used blocks is cleared, a request for as much as the run
/// held, inner headers included, is served without carving.
pub proof fn lemma_cleared_serves(v: HeapView, i: int, j: int, n: int)
    requires
        v.wf(),
        0 <= i <= j < v.blocks.len(),
        !v.blocks[i].free,
        !v.blocks[j].free,
        n <= v.blocks[j].end() - v.blocks[i].start - UNIT,
    ensures
        cleared(v, i, j).wf(),
        first_fit(cleared(v, i, j).blocks, rounded(n), 0) < cleared(v, i, j).blocks.len(),
        cleared(v, i, j).can_allocate(n),
        cleared(v, i, j).allocate(n).high_water() == v.high_water(),
{
    let blocks = v.blocks;
    lemma_cleared(v, i, j);
    if i < j {
        lemma_chained_ordered(blocks, i, j);
    }
    assert(blocks[i].well_sized() && blocks[j].well_sized());
    let whole = blocks[j].end() - blocks[i].start - UNIT;
    lemma_block_aligned(blocks[i]);
    lemma_block_aligned(blocks[j]);
    lemma_aligned_sum(blocks[j].end(), blocks[i].payload());
    lemma_rounded_exact(whole);
    lemma_rounded_monotonic(n, whole);
    lemma_served_without_carving(cleared(v, i, j), merge_from(blocks, i), n);
}

/// Three used blocks side by side, released first, last and then middle,
/// become part of one free block: a request for their payloads and the two
/// inner headers together is then served without carving. By
/// `lemma_release_commutes` the same holds for every order of release.
pub proof fn lemma_three_way_coalesce(v: HeapView, i: int, n: int)
    requires
        v.wf(),
        0 <= i,
        i + 2 < v.blocks.len(),
        !v.blocks[i].free,
        !v.blocks[i + 1].free,
        !v.blocks[i + 2].free,
        n <= v.blocks[i].size + v.blocks[i + 1].size + v.blocks[i + 2].size + 2 * UNIT,
    ensures
        ({
            let a = v.blocks[i].payload();
            let b = v.blocks[i + 1].payload();
            let c = v.blocks[i + 2].payload();
            let merged = v.release(a).release(c).release(b);
            &&& v.release(a).is_live(c)
            &&& v.release(a).release(c).is_live(b)
            &&& merged.wf()
            &&& first_fit(merged.blocks, rounded(n), 0) < merged.blocks.len()
            &&& merged.can_allocate(n)
            &&& merged.allocate(n).high_water() == v.high_water()
        }),
{
    assert(v.blocks[i + 1].start == v.blocks[i].end());
    assert(v.blocks[i + 2].start == v.blocks[i + 1].end());
    lemma_three_released(v, i);
    lemma_cleared_serves(v, i, i + 2, n);
}

} // verus!
