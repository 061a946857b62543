//! Steady state: a workload that allocates a batch of equal blocks and
//! releases them all, over and over, stops carving after its first round.

use vstd::prelude::*;
use crate::laws::{lemma_allocate_live, lemma_determined, lemma_release_live};
use crate::layout::{aligned, lemma_aligned_sum, lemma_aligned_unit, lemma_rounded, rounded, UNIT};
use crate::model::{
    chained, coalesced, first_fit, high_water, lemma_block_aligned, lemma_carved,
    lemma_first_fit, lemma_first_fit_is, lemma_high_water_aligned, lemma_placed,
    lemma_splice_index, lemma_taken, placed, taken, tiled, Block, HeapView,
};
use crate::requests::{footprint, lemma_footprint_bound, lemma_footprint_concat};

verus! {

/// The state after `k` requests of `n` bytes each.
pub open spec fn run(v: HeapView, k: nat, n: int) -> HeapView
    decreases k,
{
    if k == 0 {
        v
    } else {
        run(v.allocate(n), (k - 1) as nat, n)
    }
}

/// Each of `k` requests of `n` bytes, made in turn, is served.
pub open spec fn run_served(v: HeapView, k: nat, n: int) -> bool
    decreases k,
{
    k == 0 || (v.can_allocate(n) && run_served(v.allocate(n), (k - 1) as nat, n))
}

/// A served request leaves the heap well formed; the high-water mark stays,
/// or moves up by a header and the rounded request.
pub proof fn lemma_allocate_mark(v: HeapView, n: int)
    requires
        v.wf(),
        v.can_allocate(n),
    ensures
        v.allocate(n).wf(),
        v.allocate(n).capacity == v.capacity,
        first_fit(v.blocks, rounded(n), 0) < v.blocks.len() ==> v.allocate(n).high_water()
            == v.high_water(),
        first_fit(v.blocks, rounded(n), 0) >= v.blocks.len() ==> v.allocate(n).high_water()
            == v.high_water() + UNIT + rounded(n),
{
    let need = rounded(n);
    lemma_rounded(n);
    lemma_first_fit(v.blocks, need, 0);
    if first_fit(v.blocks, need, 0) < v.blocks.len() {
        lemma_placed(v.blocks, first_fit(v.blocks, need, 0), need);
    } else {
        lemma_carved(v.blocks, need);
    }
}

/// A run of served requests leaves the heap well formed and never lowers
/// the high-water mark; where it raises the mark, it does so by a header
/// and a payload at the least.
pub proof fn lemma_run(v: HeapView, k: nat, n: int)
    requires
        v.wf(),
        run_served(v, k, n),
    ensures
        run(v, k, n).wf(),
        run(v, k, n).capacity == v.capacity,
        run(v, k, n).high_water() == v.high_water() || run(v, k, n).high_water()
            >= v.high_water() + 2 * UNIT,
    decreases k,
{
    if k > 0 {
        lemma_rounded(n);
        lemma_allocate_mark(v, n);
        lemma_run(v.allocate(n), (k - 1) as nat, n);
    }
}

/// Offset at which the blocks from index `c` on begin.
pub open spec fn tail_start(x: Seq<Block>, c: int) -> int {
    if c > 0 {
        x[c - 1].end()
    } else {
        0
    }
}

/// From index `c` on, the row holds used blocks and then one free block that
/// starts at `g`.
pub open spec fn open_tail(y: Seq<Block>, c: int, g: int) -> bool {
    &&& y.len() > c
    &&& y.last().free
    &&& y.last().start == g
    &&& forall|j: int| c <= j < y.len() - 1 ==> !(#[trigger] y[j]).free
}

/// From index `c` on, the row holds used blocks only, and less than a
/// header and a unit of payload lies between `g` and its end.
pub open spec fn closed_tail(y: Seq<Block>, c: int, g: int) -> bool {
    &&& forall|j: int| c <= j < y.len() ==> !(#[trigger] y[j]).free
    &&& high_water(y) < g + 2 * UNIT
}

/// Two rows that serve the same requests side by side: `x`, which may still
/// carve, and `y`, which holds in one free block at its end all that `x`
/// will carve. They agree on their first `c` blocks; beyond those, `x` has
/// used at least the room up to `g`, and `y` has its free block from `g` on.
pub open spec fn paired(x: Seq<Block>, y: Seq<Block>, c: int, g: int) -> bool {
    &&& 0 <= c <= x.len()
    &&& c <= y.len()
    &&& forall|j: int|
        #![trigger x[j]]
        #![trigger y[j]]
        0 <= j < c ==> x[j] == y[j]
    &&& tail_start(x, c) + footprint(x.skip(c)) >= g
    &&& (open_tail(y, c, g) || closed_tail(y, c, g))
}

/// What is left of a chain without its first blocks is a chain.
proof fn lemma_chained_skip(x: Seq<Block>, c: int)
    requires
        chained(x),
        0 <= c <= x.len(),
    ensures
        chained(x.skip(c)),
{
    let t = x.skip(c);
    assert forall|i: int| 0 <= i < t.len() implies (#[trigger] t[i]).well_sized() by {
        assert(t[i] == x[i + c]);
    }
    assert forall|i: int, j: int| 0 <= i && j == i + 1 && j < t.len() implies (#[trigger] t[j]).start
        == (#[trigger] t[i]).end() by {
        assert(t[i] == x[i + c] && t[j] == x[j + c]);
    }
}

/// What the blocks from `c` on take up lies between their start and the
/// high-water mark.
proof fn lemma_tail_bound(x: Seq<Block>, c: int)
    requires
        tiled(x),
        0 <= c <= x.len(),
    ensures
        0 <= footprint(x.skip(c)),
        tail_start(x, c) + footprint(x.skip(c)) <= high_water(x),
        footprint(x) == footprint(x.take(c)) + footprint(x.skip(c)),
{
    let t = x.skip(c);
    lemma_chained_skip(x, c);
    assert(x =~= x.take(c) + t);
    lemma_footprint_concat(x.take(c), t);
    if t.len() > 0 {
        lemma_footprint_bound(t);
        assert(t[0] == x[c]);
        assert(t.last() == x.last());
        if c > 0 {
            assert(x[c].start == x[c - 1].end());
        }
    } else {
        assert(footprint(t) == 0);
    }
}

/// Rows that agree on their first `c` blocks have the same first fit, if one
/// of them has it among those blocks.
proof fn lemma_same_first_fit(x: Seq<Block>, y: Seq<Block>, c: int, need: int)
    requires
        0 <= c <= x.len(),
        c <= y.len(),
        forall|j: int|
            #![trigger x[j]]
            #![trigger y[j]]
            0 <= j < c ==> x[j] == y[j],
        first_fit(x, need, 0) < c,
    ensures
        first_fit(y, need, 0) == first_fit(x, need, 0),
        y[first_fit(x, need, 0)] == x[first_fit(x, need, 0)],
        x[first_fit(x, need, 0)].fits(need),
{
    let i = first_fit(x, need, 0);
    lemma_first_fit(x, need, 0);
    assert(x[i] == y[i]);
    assert forall|j: int| 0 <= j < i implies !(#[trigger] y[j]).fits(need) by {
        assert(x[j] == y[j]);
        assert(!x[j].fits(need));
    }
    lemma_first_fit_is(y, need, 0, i);
}

/// Where each block of a row comes from after an allocation from its block
/// `i`: the blocks below stay, the pieces take the block's place, and the
/// blocks above move up by the number of pieces less one.
proof fn lemma_placed_index(x: Seq<Block>, i: int, need: int, j: int)
    requires
        0 <= i < x.len(),
        0 <= j < placed(x, i, need).len(),
    ensures
        placed(x, i, need).len() == x.len() + taken(x[i], need).len() - 1,
        1 <= taken(x[i], need).len() <= 2,
        placed(x, i, need)[j] == (if j < i {
            x[j]
        } else if j < i + taken(x[i], need).len() {
            taken(x[i], need)[j - i]
        } else {
            x[j - taken(x[i], need).len() + 1]
        }),
{
    lemma_splice_index(x, i, i + 1, taken(x[i], need));
}

/// An allocation from a block that two rows share leaves them sharing the
/// blocks they shared, and the pieces.
proof fn lemma_prefix_shared(x: Seq<Block>, y: Seq<Block>, c: int, i: int, need: int)
    requires
        0 <= i < c <= x.len(),
        c <= y.len(),
        forall|j: int|
            #![trigger x[j]]
            #![trigger y[j]]
            0 <= j < c ==> x[j] == y[j],
    ensures
        forall|j: int|
            #![trigger placed(x, i, need)[j]]
            #![trigger placed(y, i, need)[j]]
            0 <= j < c + taken(x[i], need).len() - 1 ==> placed(x, i, need)[j] == placed(
                y,
                i,
                need,
            )[j],
{
    let x2 = placed(x, i, need);
    let y2 = placed(y, i, need);
    let d = taken(x[i], need).len() - 1;
    assert(x[i] == y[i]);
    assert forall|j: int|
        #![trigger x2[j]]
        #![trigger y2[j]]
        0 <= j < c + d implies x2[j] == y2[j] by {
        lemma_placed_index(x, i, need, 0);
        lemma_placed_index(y, i, need, 0);
        lemma_placed_index(x, i, need, j);
        lemma_placed_index(y, i, need, j);
        if j >= i + d + 1 {
            assert(x[j - d] == y[j - d]);
        }
    }
}

/// An allocation from one of the first `c` blocks of a chain leaves the
/// blocks from `c` on as they are, further up in the row.
proof fn lemma_prefix_tail(x: Seq<Block>, c: int, i: int, need: int)
    requires
        chained(x),
        0 <= i < c <= x.len(),
        x[i].size >= need,
        need >= UNIT,
        aligned(need),
    ensures
        tail_start(placed(x, i, need), c + taken(x[i], need).len() - 1) == tail_start(x, c),
        placed(x, i, need).skip(c + taken(x[i], need).len() - 1) == x.skip(c),
        placed(x, i, need).len() == x.len() + taken(x[i], need).len() - 1,
        1 <= taken(x[i], need).len() <= 2,
{
    let x2 = placed(x, i, need);
    let n = taken(x[i], need).len() as int;
    let c2 = c + n - 1;
    assert(x[i].well_sized());
    lemma_taken(x[i], need);
    lemma_placed_index(x, i, need, c2 - 1);
    assert forall|j: int| 0 <= j < x.len() - c implies x2.skip(c2)[j] == x.skip(c)[j] by {
        lemma_placed_index(x, i, need, c2 + j);
    }
    assert(x2.skip(c2) =~= x.skip(c));
}

/// An allocation from one of the first `c` blocks of a row leaves the shape
/// of the blocks from `c` on.
proof fn lemma_prefix_shape(y: Seq<Block>, c: int, g: int, i: int, need: int)
    requires
        tiled(y),
        coalesced(y),
        0 <= i < c <= y.len(),
        y[i].fits(need),
        need >= UNIT,
        aligned(need),
    ensures
        high_water(placed(y, i, need)) == high_water(y),
        open_tail(y, c, g) ==> open_tail(placed(y, i, need), c + taken(y[i], need).len() - 1, g),
        closed_tail(y, c, g) ==> closed_tail(
            placed(y, i, need),
            c + taken(y[i], need).len() - 1,
            g,
        ),
{
    let y2 = placed(y, i, need);
    let d = taken(y[i], need).len() - 1;
    let c2 = c + d;
    lemma_placed(y, i, need);
    lemma_placed_index(y, i, need, 0);
    if open_tail(y, c, g) {
        lemma_placed_index(y, i, need, y2.len() - 1);
        assert(y2.last() == y.last());
        assert forall|j: int| c2 <= j < y2.len() - 1 implies !(#[trigger] y2[j]).free by {
            lemma_placed_index(y, i, need, j);
            assert(!y[j - d].free);
        }
    }
    if closed_tail(y, c, g) {
        assert forall|j: int| c2 <= j < y2.len() implies !(#[trigger] y2[j]).free by {
            lemma_placed_index(y, i, need, j);
            assert(!y[j - d].free);
        }
    }
}

/// A step that both rows take in the blocks they share: they take it in the
/// same block, and stay paired.
proof fn lemma_prefix_step(x: Seq<Block>, y: Seq<Block>, c: int, g: int, need: int)
    requires
        tiled(x),
        coalesced(x),
        tiled(y),
        coalesced(y),
        paired(x, y, c, g),
        need >= UNIT,
        aligned(need),
        first_fit(x, need, 0) < c,
    ensures
        first_fit(y, need, 0) == first_fit(x, need, 0),
        paired(
            placed(x, first_fit(x, need, 0), need),
            placed(y, first_fit(x, need, 0), need),
            c + taken(x[first_fit(x, need, 0)], need).len() - 1,
            g,
        ),
        high_water(placed(y, first_fit(x, need, 0), need)) == high_water(y),
{
    let i = first_fit(x, need, 0);
    lemma_first_fit(x, need, 0);
    lemma_same_first_fit(x, y, c, need);
    lemma_prefix_shared(x, y, c, i, need);
    lemma_prefix_tail(x, c, i, need);
    lemma_prefix_tail(y, c, i, need);
    lemma_prefix_shape(y, c, g, i, need);
}

/// A step that the carving row takes beyond the shared blocks: the other
/// row serves it from its last, free block, and the two stay paired.
proof fn lemma_tail_step(
    x: Seq<Block>,
    x2: Seq<Block>,
    y: Seq<Block>,
    c: int,
    g: int,
    need: int,
)
    requires
        tiled(x),
        tiled(y),
        coalesced(y),
        paired(x, y, c, g),
        need >= UNIT,
        aligned(need),
        first_fit(x, need, 0) >= c,
        tiled(x2),
        c <= x2.len(),
        forall|j: int| 0 <= j < c ==> #[trigger] x2[j] == x[j],
        footprint(x2) >= footprint(x) + UNIT + need,
        high_water(x2) <= high_water(y),
    ensures
        y.len() > 0,
        first_fit(y, need, 0) == y.len() - 1,
        paired(x2, placed(y, y.len() - 1, need), c, g + UNIT + need),
        high_water(placed(y, y.len() - 1, need)) == high_water(y),
{
    lemma_first_fit(x, need, 0);
    lemma_tail_bound(x, c);
    lemma_tail_bound(x2, c);
    assert(x2.take(c) =~= x.take(c));
    assert(tail_start(x2, c) == tail_start(x, c)) by {
        if c > 0 {
            assert(x2[c - 1] == x[c - 1]);
        }
    }
    // The carving row has used up the room to `g + UNIT + need`, and the
    // other row reaches at least as far.
    assert(high_water(y) >= g + UNIT + need);
    assert(open_tail(y, c, g));
    let m = y.len() - 1;
    let last = y[m];
    assert(last.well_sized());
    assert(last.fits(need));
    assert forall|j: int| 0 <= j < m implies !(#[trigger] y[j]).fits(need) by {
        if j < c {
            assert(x[j] == y[j]);
            assert(!x[j].fits(need));
        }
    }
    lemma_first_fit_is(y, need, 0, m);
    let pieces = taken(last, need);
    let y2 = placed(y, m, need);
    lemma_taken(last, need);
    lemma_splice_index(y, m, m + 1, pieces);
    lemma_placed(y, m, need);
    assert forall|j: int|
        #![trigger x2[j]]
        #![trigger y2[j]]
        0 <= j < c implies x2[j] == y2[j] by {
        assert(y2[j] == y[j]);
        assert(x[j] == y[j]);
    }
    if last.splits(need) {
        assert(y2.last() == pieces[1]);
        assert forall|j: int| c <= j < y2.len() - 1 implies !(#[trigger] y2[j]).free by {
            if j < m {
                assert(y2[j] == y[j]);
            } else {
                assert(y2[j] == pieces[0]);
            }
        }
        assert(open_tail(y2, c, g + UNIT + need));
    } else {
        assert forall|j: int| c <= j < y2.len() implies !(#[trigger] y2[j]).free by {
            if j < m {
                assert(y2[j] == y[j]);
            } else {
                assert(y2[j] == pieces[0]);
            }
        }
        assert(closed_tail(y2, c, g + UNIT + need));
    }
}

/// Side by side: where the carving row serves `k` requests and ends with
/// the high-water mark that the other row has from the start, the other row
/// serves them too, from its free blocks alone.
proof fn lemma_lockstep(x: HeapView, y: HeapView, c: int, g: int, k: nat, n: int)
    requires
        x.wf(),
        y.wf(),
        paired(x.blocks, y.blocks, c, g),
        run_served(x, k, n),
        run(x, k, n).high_water() == y.high_water(),
    ensures
        run_served(y, k, n),
        run(y, k, n).high_water() == y.high_water(),
    decreases k,
{
    if k > 0 {
        let need = rounded(n);
        lemma_rounded(n);
        let i = first_fit(x.blocks, need, 0);
        lemma_first_fit(x.blocks, need, 0);
        lemma_allocate_mark(x, n);
        lemma_run(x.allocate(n), (k - 1) as nat, n);
        if i < c {
            lemma_prefix_step(x.blocks, y.blocks, c, g, need);
            lemma_placed(y.blocks, i, need);
            lemma_lockstep(
                x.allocate(n),
                y.allocate(n),
                c + taken(x.blocks[i], need).len() - 1,
                g,
                (k - 1) as nat,
                n,
            );
        } else {
            let x2 = x.allocate(n).blocks;
            crate::requests::lemma_allocate_footprint(x, n);
            assert forall|j: int| 0 <= j < c implies #[trigger] x2[j] == x.blocks[j] by {
                if i < x.blocks.len() {
                    lemma_splice_index(x.blocks, i, i + 1, taken(x.blocks[i], need));
                }
            }
            assert(c <= x2.len()) by {
                if i < x.blocks.len() {
                    lemma_splice_index(x.blocks, i, i + 1, taken(x.blocks[i], need));
                }
            }
            lemma_tail_step(x.blocks, x2, y.blocks, c, g, need);
            lemma_first_fit(y.blocks, need, 0);
            lemma_placed(y.blocks, y.blocks.len() - 1, need);
            lemma_lockstep(x.allocate(n), y.allocate(n), c, g + UNIT + need, (k - 1) as nat, n);
        }
    }
}

/// Number of blocks below the room at the top of the row that is free or
/// not yet carved: all blocks but a free last one.
pub open spec fn settled(blocks: Seq<Block>) -> int {
    if blocks.len() > 0 && blocks.last().free {
        blocks.len() - 1
    } else {
        blocks.len() as int
    }
}

/// The heap with the same live payloads and the high-water mark raised to
/// `top`: all room above the last used block is one free block.
pub open spec fn raised(v: HeapView, top: int) -> HeapView {
    let c = settled(v.blocks);
    let t = tail_start(v.blocks, c);
    HeapView {
        capacity: v.capacity,
        blocks: v.blocks.take(c).push(Block { start: t, size: top - t - UNIT, free: true }),
    }
}

/// Raising the high-water mark leaves a well-formed heap with the same live
/// payloads, paired with the heap it was raised from.
proof fn lemma_raised(v: HeapView, top: int)
    requires
        v.wf(),
        top >= v.high_water() + 2 * UNIT,
        top <= v.capacity,
        aligned(top),
    ensures
        raised(v, top).wf(),
        raised(v, top).capacity == v.capacity,
        raised(v, top).high_water() == top,
        raised(v, top).live() == v.live(),
        paired(v.blocks, raised(v, top).blocks, settled(v.blocks), tail_start(
            v.blocks,
            settled(v.blocks),
        )),
{
    let x = v.blocks;
    let c = settled(x);
    let t = tail_start(x, c);
    let w = raised(v, top);
    let y = w.blocks;
    let big = Block { start: t, size: top - t - UNIT, free: true };
    lemma_tail_bound(x, c);
    lemma_aligned_unit();
    if c > 0 {
        assert(x[c - 1].well_sized());
        lemma_block_aligned(x[c - 1]);
        if c < x.len() {
            assert(!(x[c - 1].free && x[c].free));
        }
    }
    lemma_aligned_sum(top, t);
    lemma_aligned_sum(top - t, UNIT as int);
    assert(big.well_sized());
    assert(y[c] == big);
    assert forall|j: int| 0 <= j < y.len() implies (#[trigger] y[j]).well_sized() by {
        if j < c {
            assert(y[j] == x[j]);
        }
    }
    assert forall|i: int, j: int| 0 <= i && j == i + 1 && j < y.len() implies (#[trigger] y[j]).start
        == (#[trigger] y[i]).end() by {
        assert(y[i] == x[i]);
        if j < c {
            assert(y[j] == x[j]);
        }
    }
    assert forall|i: int, j: int| 0 <= i && j == i + 1 && j < y.len() implies !((#[trigger] y[i]).free
        && (#[trigger] y[j]).free) by {
        assert(y[i] == x[i]);
        if j < c {
            assert(y[j] == x[j]);
        }
    }
    if c > 0 {
        assert(y[0] == x[0]);
    }
    assert forall|q: int| v.is_live(q) == w.is_live(q) by {
        if v.is_live(q) {
            let j = choose|j: int| #[trigger] v.live_at(j, q);
            assert(y[j] == x[j]);
            assert(w.live_at(j, q));
        }
        if w.is_live(q) {
            let j = choose|j: int| #[trigger] w.live_at(j, q);
            assert(y[j] == x[j]);
            assert(v.live_at(j, q));
        }
    }
    assert forall|q: int| v.is_live(q) implies v.usable_size(q) == w.usable_size(q) by {
        let j = choose|j: int| #[trigger] v.live_at(j, q);
        assert(y[j] == x[j]);
        v.lemma_index_of(j, q);
        w.lemma_index_of(j, q);
    }
    assert(w.live() =~= v.live());
    assert(open_tail(y, c, t));
}

/// Refill: a heap that holds the live payloads of `v` and has the
/// high-water mark that `k` requests of `n` bytes leave `v` with serves the
/// same requests without carving.
pub proof fn lemma_refill(v: HeapView, s: HeapView, k: nat, n: int)
    requires
        v.wf(),
        run_served(v, k, n),
        s.wf(),
        s.capacity == v.capacity,
        s.live() == v.live(),
        s.high_water() == run(v, k, n).high_water(),
    ensures
        run_served(s, k, n),
        run(s, k, n).high_water() == s.high_water(),
{
    let top = run(v, k, n).high_water();
    lemma_run(v, k, n);
    lemma_high_water_aligned(run(v, k, n).blocks);
    if top == v.high_water() {
        lemma_determined(s, v);
    } else {
        lemma_raised(v, top);
        lemma_determined(s, raised(v, top));
        lemma_lockstep(
            v,
            raised(v, top),
            settled(v.blocks),
            tail_start(v.blocks, settled(v.blocks)),
            k,
            n,
        );
    }
}

/// A run of served requests leaves every live payload live, with the
/// length it had.
pub proof fn lemma_run_keeps_live(v: HeapView, k: nat, n: int, q: int)
    requires
        v.wf(),
        run_served(v, k, n),
        v.is_live(q),
    ensures
        run(v, k, n).is_live(q),
        run(v, k, n).usable_size(q) == v.usable_size(q),
    decreases k,
{
    if k > 0 {
        lemma_allocate_live(v, n, q);
        lemma_run_keeps_live(v.allocate(n), (k - 1) as nat, n, q);
    }
}

/// A run in two parts: the first `j` requests, then the rest.
pub proof fn lemma_run_split(v: HeapView, j: nat, k: nat, n: int)
    requires
        j <= k,
        run_served(v, k, n),
    ensures
        run_served(v, j, n),
        run_served(run(v, j, n), (k - j) as nat, n),
        run(run(v, j, n), (k - j) as nat, n) == run(v, k, n),
    decreases j,
{
    if j > 0 {
        lemma_run_split(v.allocate(n), (j - 1) as nat, (k - 1) as nat, n);
    }
}

/// The state after the payloads were released in the order given.
pub open spec fn release_all(v: HeapView, order: Seq<int>) -> HeapView
    decreases order.len(),
{
    if order.len() == 0 {
        v
    } else {
        release_all(v.release(order[0]), order.skip(1))
    }
}

/// Each payload of the order is live when its turn to be released comes.
pub open spec fn releasable(v: HeapView, order: Seq<int>) -> bool
    decreases order.len(),
{
    order.len() == 0 || (v.is_live(order[0]) && releasable(v.release(order[0]), order.skip(1)))
}

/// Releasing a set of payloads, in whatever order, leaves the heap well
/// formed, does not move the high-water mark, and leaves live exactly the
/// payloads that were not named.
pub proof fn lemma_release_all(v: HeapView, order: Seq<int>, q: int)
    requires
        v.wf(),
        releasable(v, order),
    ensures
        release_all(v, order).wf(),
        release_all(v, order).capacity == v.capacity,
        release_all(v, order).high_water() == v.high_water(),
        release_all(v, order).is_live(q) <==> v.is_live(q) && !order.contains(q),
        release_all(v, order).is_live(q) ==> release_all(v, order).usable_size(q) == v.usable_size(
            q,
        ),
    decreases order.len(),
{
    if order.len() > 0 {
        let rest = order.skip(1);
        lemma_release_live(v, order[0], q);
        lemma_release_all(v.release(order[0]), rest, q);
        if order.contains(q) {
            let i = choose|i: int| 0 <= i < order.len() && order[i] == q;
            if i > 0 {
                assert(rest[i - 1] == q);
            }
        }
        if rest.contains(q) {
            let i = choose|i: int| 0 <= i < rest.len() && rest[i] == q;
            assert(order[i + 1] == q);
        }
    }
}

/// The state after one round: `k` requests of `n` bytes each, then the
/// release of what they were served with, in the order given.
pub open spec fn round(v: HeapView, k: nat, n: int, order: Seq<int>) -> HeapView {
    release_all(run(v, k, n), order)
}

/// The order names exactly the payloads that the round's requests were
/// served with, each once.
pub open spec fn releases_batch(v: HeapView, k: nat, n: int, order: Seq<int>) -> bool {
    &&& releasable(run(v, k, n), order)
    &&& forall|q: int| #[trigger]
        order.contains(q) <==> run(v, k, n).is_live(q) && !v.is_live(q)
}

/// A round leaves the heap with the live payloads it began with and with
/// the high-water mark that its requests reached.
pub proof fn lemma_round(v: HeapView, k: nat, n: int, order: Seq<int>)
    requires
        v.wf(),
        run_served(v, k, n),
        releases_batch(v, k, n, order),
    ensures
        round(v, k, n, order).wf(),
        round(v, k, n, order).capacity == v.capacity,
        round(v, k, n, order).high_water() == run(v, k, n).high_water(),
        round(v, k, n, order).live() == v.live(),
{
    let u = run(v, k, n);
    let w = round(v, k, n, order);
    lemma_run(v, k, n);
    lemma_release_all(u, order, 0);
    assert forall|q: int| w.is_live(q) == v.is_live(q) by {
        lemma_release_all(u, order, q);
        if v.is_live(q) {
            lemma_run_keeps_live(v, k, n, q);
        }
    }
    assert forall|q: int| w.is_live(q) implies w.usable_size(q) == v.usable_size(q) by {
        lemma_release_all(u, order, q);
        lemma_run_keeps_live(v, k, n, q);
    }
    assert(w.live() =~= v.live());
}

/// Steady state: after a first round of `k` requests of `n` bytes and the
/// release of the batch, in any order, the same round is served in full
/// without moving the high-water mark at any of its steps, and, its batch
/// released in any order, leaves the heap exactly as the first round did.
pub proof fn lemma_steady_state(v: HeapView, k: nat, n: int, first: Seq<int>, next: Seq<int>)
    requires
        v.wf(),
        run_served(v, k, n),
        releases_batch(v, k, n, first),
        releases_batch(round(v, k, n, first), k, n, next),
    ensures
        round(v, k, n, first).wf(),
        run_served(round(v, k, n, first), k, n),
        forall|j: nat|
            j <= k ==> (#[trigger] run(round(v, k, n, first), j, n)).high_water() == round(
                v,
                k,
                n,
                first,
            ).high_water(),
        round(round(v, k, n, first), k, n, next) == round(v, k, n, first),
{
    let s = round(v, k, n, first);
    lemma_round(v, k, n, first);
    lemma_refill(v, s, k, n);
    lemma_round(s, k, n, next);
    lemma_determined(round(s, k, n, next), s);
    assert forall|j: nat| j <= k implies (#[trigger] run(s, j, n)).high_water()
        == s.high_water() by {
        lemma_run_split(s, j, k, n);
        lemma_run(s, j, n);
        lemma_run(run(s, j, n), (k - j) as nat, n);
    }
}

/// The state after a round for each of the orders given.
pub open spec fn rounds(v: HeapView, k: nat, n: int, orders: Seq<Seq<int>>) -> HeapView
    decreases orders.len(),
{
    if orders.len() == 0 {
        v
    } else {
        rounds(round(v, k, n, orders[0]), k, n, orders.skip(1))
    }
}

/// Each order names the batch of its round.
pub open spec fn release_batches(v: HeapView, k: nat, n: int, orders: Seq<Seq<int>>) -> bool
    decreases orders.len(),
{
    orders.len() == 0 || (releases_batch(v, k, n, orders[0]) && release_batches(
        round(v, k, n, orders[0]),
        k,
        n,
        orders.skip(1),
    ))
}

/// No fragmentation in the steady state: however many rounds follow the
/// first, and in whatever order each releases its batch, the heap is then
/// as the first round left it, the high-water mark included.
pub proof fn lemma_rounds_steady(v: HeapView, k: nat, n: int, orders: Seq<Seq<int>>)
    requires
        v.wf(),
        run_served(v, k, n),
        orders.len() >= 1,
        release_batches(v, k, n, orders),
    ensures
        rounds(v, k, n, orders) == round(v, k, n, orders[0]),
    decreases orders.len(),
{
    let s = round(v, k, n, orders[0]);
    let rest = orders.skip(1);
    assert(release_batches(s, k, n, rest));
    if rest.len() > 0 {
        assert(releases_batch(s, k, n, rest[0]));
        lemma_steady_state(v, k, n, orders[0], rest[0]);
        lemma_rounds_steady(s, k, n, rest);
        assert(rounds(s, k, n, rest) == round(s, k, n, rest[0]));
    } else {
        assert(rounds(s, k, n, rest) == s);
    }
}

} // verus!
