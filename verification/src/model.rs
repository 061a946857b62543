//! The allocator as mathematics: the arena seen as a row of blocks, and what
//! an allocation and a release do to that row.

use vstd::prelude::*;
use crate::layout::{aligned, lemma_aligned_sum, lemma_aligned_unit, rounded, UNIT};

verus! {

/// One block of the arena: a header at `start`, then `size` payload bytes.
pub struct Block {
    /// Offset of the header.
    pub start: int,
    /// Usable payload length in bytes.
    pub size: int,
    /// The tag: free, or in use by a caller.
    pub free: bool,
}

impl Block {
    /// Offset of the first payload byte.
    pub open spec fn payload(self) -> int {
        self.start + UNIT
    }

    /// Offset just past the last payload byte.
    pub open spec fn end(self) -> int {
        self.start + UNIT + self.size
    }

    /// Header and payload are made of whole units, and the payload is not
    /// empty.
    pub open spec fn well_sized(self) -> bool {
        &&& self.start >= 0
        &&& aligned(self.start)
        &&& self.size >= UNIT
        &&& aligned(self.size)
    }

    /// The block is free and can hold `need` payload bytes.
    pub open spec fn fits(self, need: int) -> bool {
        self.free && self.size >= need
    }

    /// A free block this large is cut in two when `need` bytes are taken
    /// from it: what is left over can carry a header and a payload of its own.
    pub open spec fn splits(self, need: int) -> bool {
        self.size - need >= 2 * UNIT
    }
}

/// Each block is well sized and begins where the one before it ends.
pub open spec fn chained(blocks: Seq<Block>) -> bool {
    &&& forall|i: int| 0 <= i < blocks.len() ==> (#[trigger] blocks[i]).well_sized()
    &&& forall|i: int, j: int|
        0 <= i && j == i + 1 && j < blocks.len() ==> (#[trigger] blocks[j]).start == (
        #[trigger] blocks[i]).end()
}

/// The blocks cover the arena from offset zero on, without gap or overlap.
pub open spec fn tiled(blocks: Seq<Block>) -> bool {
    &&& chained(blocks)
    &&& blocks.len() > 0 ==> blocks[0].start == 0
}

/// No two neighbours are both free.
pub open spec fn coalesced(blocks: Seq<Block>) -> bool {
    forall|i: int, j: int|
        0 <= i && j == i + 1 && j < blocks.len() ==> !((#[trigger] blocks[i]).free && (
        #[trigger] blocks[j]).free)
}

/// How far the arena has been carved into blocks.
pub open spec fn high_water(blocks: Seq<Block>) -> int {
    if blocks.len() == 0 {
        0
    } else {
        blocks.last().end()
    }
}

/// Some free block starts at `a`.
pub open spec fn free_start(blocks: Seq<Block>, a: int) -> bool {
    exists|i: int| 0 <= i < blocks.len() && (#[trigger] blocks[i]).free && blocks[i].start == a
}

/// A well-sized block has its payload and its end on unit boundaries.
pub proof fn lemma_block_aligned(b: Block)
    requires
        b.well_sized(),
    ensures
        aligned(b.payload()),
        aligned(b.end()),
        b.start < b.payload() < b.end(),
{
    lemma_aligned_unit();
    lemma_aligned_sum(b.start, UNIT as int);
    lemma_aligned_sum(b.start + UNIT, b.size);
}

/// A row of one well-sized block is a chain, and coalesced.
pub proof fn lemma_single(b: Block)
    requires
        b.well_sized(),
    ensures
        chained(seq![b]),
        coalesced(seq![b]),
        seq![b][0] == b,
        seq![b].last() == b,
        seq![b].len() == 1,
{
}

/// The high-water mark of a chain lies on a unit boundary.
pub proof fn lemma_high_water_aligned(blocks: Seq<Block>)
    requires
        chained(blocks),
    ensures
        aligned(high_water(blocks)),
        blocks.len() > 0 ==> high_water(blocks) > blocks.last().start >= 0,
{
    if blocks.len() > 0 {
        assert(blocks.last().well_sized());
        lemma_block_aligned(blocks.last());
    } else {
        lemma_aligned_unit();
    }
}

/// In a chain, a block that comes earlier also lies lower.
pub proof fn lemma_chained_ordered(blocks: Seq<Block>, i: int, j: int)
    requires
        chained(blocks),
        0 <= i < j < blocks.len(),
    ensures
        blocks[i].end() <= blocks[j].start,
    decreases j - i,
{
    if j > i + 1 {
        lemma_chained_ordered(blocks, i, j - 1);
        assert(blocks[j].start == blocks[j - 1].end());
    } else {
        assert(blocks[j].start == blocks[i].end());
    }
}

/// In a chain, the offsets tell the order of the blocks.
pub proof fn lemma_chained_index_order(blocks: Seq<Block>, i: int, j: int)
    requires
        chained(blocks),
        0 <= i < blocks.len(),
        0 <= j < blocks.len(),
    ensures
        blocks[i].start < blocks[j].start <==> i < j,
        blocks[i].start == blocks[j].start <==> i == j,
        blocks[i].start < blocks[j].end() <==> i <= j,
{
    if i < j {
        lemma_chained_ordered(blocks, i, j);
    } else if j < i {
        lemma_chained_ordered(blocks, j, i);
    }
}

/// No block of a tiling reaches past the high-water mark.
pub proof fn lemma_below_high_water(blocks: Seq<Block>, i: int)
    requires
        chained(blocks),
        0 <= i < blocks.len(),
    ensures
        0 <= blocks[i].start,
        blocks[i].end() <= high_water(blocks),
{
    if i < blocks.len() - 1 {
        lemma_chained_ordered(blocks, i, blocks.len() - 1);
    }
}

/// A block header that starts within the room of the blocks `lo..=hi` is the
/// header of one of them.
pub proof fn lemma_start_in_span(blocks: Seq<Block>, lo: int, hi: int, j: int)
    requires
        chained(blocks),
        0 <= lo <= hi < blocks.len(),
        0 <= j < blocks.len(),
        blocks[lo].start <= blocks[j].start < blocks[hi].end(),
    ensures
        lo <= j <= hi,
{
    lemma_chained_index_order(blocks, j, lo);
    lemma_chained_index_order(blocks, j, hi);
}

/// The row in which the blocks `lo..hi` are replaced by `pieces`.
pub open spec fn splice(blocks: Seq<Block>, lo: int, hi: int, pieces: Seq<Block>) -> Seq<Block> {
    blocks.subrange(0, lo) + pieces + blocks.subrange(hi, blocks.len() as int)
}

/// Where each block of a spliced row comes from.
pub proof fn lemma_splice_index(blocks: Seq<Block>, lo: int, hi: int, pieces: Seq<Block>)
    requires
        0 <= lo <= hi <= blocks.len(),
    ensures
        splice(blocks, lo, hi, pieces).len() == lo + pieces.len() + (blocks.len() - hi),
        forall|j: int| 0 <= j < lo ==> #[trigger] splice(blocks, lo, hi, pieces)[j] == blocks[j],
        forall|j: int|
            lo <= j < lo + pieces.len() ==> #[trigger] splice(blocks, lo, hi, pieces)[j]
                == pieces[j - lo],
        forall|j: int|
            lo + pieces.len() <= j < splice(blocks, lo, hi, pieces).len() ==> #[trigger] splice(
                blocks,
                lo,
                hi,
                pieces,
            )[j] == blocks[j - lo - pieces.len() + hi],
{
}

/// Pieces that fill exactly the room of the blocks they replace leave the
/// row a tiling with the same high-water mark.
pub proof fn lemma_splice_tiled(blocks: Seq<Block>, lo: int, hi: int, pieces: Seq<Block>)
    requires
        tiled(blocks),
        0 <= lo < hi <= blocks.len(),
        chained(pieces),
        pieces.len() > 0,
        pieces[0].start == blocks[lo].start,
        pieces.last().end() == blocks[hi - 1].end(),
    ensures
        tiled(splice(blocks, lo, hi, pieces)),
        high_water(splice(blocks, lo, hi, pieces)) == high_water(blocks),
{
    let s = splice(blocks, lo, hi, pieces);
    let n = pieces.len() as int;
    lemma_splice_index(blocks, lo, hi, pieces);
    assert forall|x: int| 0 <= x < s.len() implies (#[trigger] s[x]).well_sized() by {
        if x < lo {
            assert(s[x] == blocks[x]);
        } else if x < lo + n {
            assert(s[x] == pieces[x - lo]);
        } else {
            assert(s[x] == blocks[x - lo - n + hi]);
        }
    }
    assert forall|x: int, y: int| 0 <= x && y == x + 1 && y < s.len() implies (#[trigger] s[y]).start
        == (#[trigger] s[x]).end() by {
        if y < lo {
            assert(s[x] == blocks[x] && s[y] == blocks[y]);
        } else if y == lo {
            assert(s[x] == blocks[x] && s[y] == pieces[0]);
            assert(blocks[lo].start == blocks[x].end());
        } else if y < lo + n {
            assert(s[x] == pieces[x - lo] && s[y] == pieces[y - lo]);
        } else if y == lo + n {
            assert(s[x] == pieces[n - 1] && s[y] == blocks[hi]);
            assert(blocks[hi].start == blocks[hi - 1].end());
        } else {
            assert(s[x] == blocks[x - lo - n + hi] && s[y] == blocks[y - lo - n + hi]);
        }
    }
    if lo == 0 {
        assert(s[0] == pieces[0]);
    } else {
        assert(s[0] == blocks[0]);
    }
    if hi == blocks.len() {
        assert(s.last() == pieces[n - 1]);
    } else {
        assert(s.last() == blocks[blocks.len() - 1]);
    }
}

/// A splice keeps the row coalesced when the pieces are, and when no free
/// piece comes to lie beside a free block.
pub proof fn lemma_splice_coalesced(blocks: Seq<Block>, lo: int, hi: int, pieces: Seq<Block>)
    requires
        coalesced(blocks),
        0 <= lo < hi <= blocks.len(),
        coalesced(pieces),
        pieces.len() > 0,
        lo > 0 && blocks[lo - 1].free ==> !pieces[0].free,
        hi < blocks.len() && blocks[hi].free ==> !pieces.last().free,
    ensures
        coalesced(splice(blocks, lo, hi, pieces)),
{
    let s = splice(blocks, lo, hi, pieces);
    let n = pieces.len() as int;
    lemma_splice_index(blocks, lo, hi, pieces);
    assert forall|x: int, y: int| 0 <= x && y == x + 1 && y < s.len() implies !((#[trigger] s[x]).free
        && (#[trigger] s[y]).free) by {
        if y < lo {
            assert(s[x] == blocks[x] && s[y] == blocks[y]);
        } else if y == lo {
            assert(s[x] == blocks[lo - 1] && s[y] == pieces[0]);
        } else if y < lo + n {
            assert(s[x] == pieces[x - lo] && s[y] == pieces[y - lo]);
        } else if y == lo + n {
            assert(s[x] == pieces[n - 1] && s[y] == blocks[hi]);
        } else {
            assert(s[x] == blocks[x - lo - n + hi] && s[y] == blocks[y - lo - n + hi]);
        }
    }
}

/// The free blocks of a spliced row are the free pieces, and the free blocks
/// that the splice left alone.
pub proof fn lemma_splice_free_start(
    blocks: Seq<Block>,
    lo: int,
    hi: int,
    pieces: Seq<Block>,
    a: int,
)
    requires
        chained(blocks),
        0 <= lo < hi <= blocks.len(),
    ensures
        free_start(splice(blocks, lo, hi, pieces), a) <==> free_start(pieces, a) || (free_start(
            blocks,
            a,
        ) && !(blocks[lo].start <= a < blocks[hi - 1].end())),
{
    let s = splice(blocks, lo, hi, pieces);
    let n = pieces.len() as int;
    lemma_splice_index(blocks, lo, hi, pieces);
    if free_start(s, a) {
        let j = choose|j: int| 0 <= j < s.len() && (#[trigger] s[j]).free && s[j].start == a;
        if j < lo {
            assert(s[j] == blocks[j]);
            lemma_chained_index_order(blocks, j, lo);
        } else if j < lo + n {
            assert(s[j] == pieces[j - lo]);
        } else {
            let i = j - lo - n + hi;
            assert(s[j] == blocks[i]);
            lemma_chained_ordered(blocks, hi - 1, i);
        }
    }
    if free_start(pieces, a) {
        let j = choose|j: int| 0 <= j < pieces.len() && (#[trigger] pieces[j]).free && pieces[j].start == a;
        assert(s[lo + j] == pieces[j]);
    }
    if free_start(blocks, a) && !(blocks[lo].start <= a < blocks[hi - 1].end()) {
        let i = choose|i: int| 0 <= i < blocks.len() && (#[trigger] blocks[i]).free && blocks[i].start == a;
        lemma_chained_index_order(blocks, i, lo);
        lemma_chained_index_order(blocks, i, hi - 1);
        if i < lo {
            assert(s[i] == blocks[i]);
        } else {
            assert(i >= hi);
            assert(s[i - hi + lo + n] == blocks[i]);
        }
    }
}

/// Index of the first block from `from` on that is free and holds `need`
/// bytes, or the number of blocks if there is none: the first fit.
pub open spec fn first_fit(blocks: Seq<Block>, need: int, from: int) -> int
    decreases blocks.len() - from,
{
    if from < 0 || from >= blocks.len() {
        blocks.len() as int
    } else if blocks[from].fits(need) {
        from
    } else {
        first_fit(blocks, need, from + 1)
    }
}

/// The first fit fits, and nothing before it does.
pub proof fn lemma_first_fit(blocks: Seq<Block>, need: int, from: int)
    requires
        0 <= from <= blocks.len(),
    ensures
        from <= first_fit(blocks, need, from) <= blocks.len(),
        first_fit(blocks, need, from) < blocks.len() ==> blocks[first_fit(blocks, need, from)].fits(
            need,
        ),
        forall|j: int| from <= j < first_fit(blocks, need, from) ==> !(#[trigger] blocks[j]).fits(need),
    decreases blocks.len() - from,
{
    if from < blocks.len() && !blocks[from].fits(need) {
        lemma_first_fit(blocks, need, from + 1);
    }
}

/// A block that fits, with none before it that does, is the first fit.
pub proof fn lemma_first_fit_is(blocks: Seq<Block>, need: int, from: int, i: int)
    requires
        0 <= from <= i <= blocks.len(),
        i < blocks.len() ==> blocks[i].fits(need),
        forall|j: int| from <= j < i ==> !(#[trigger] blocks[j]).fits(need),
    ensures
        first_fit(blocks, need, from) == i,
    decreases i - from,
{
    if from < i {
        assert(!blocks[from].fits(need));
        lemma_first_fit_is(blocks, need, from + 1, i);
    }
}

/// What takes the place of the free block `b` when `need` bytes are
/// allocated from it: a used block of `need` bytes and a free remainder, or,
/// where the remainder could not stand alone, the whole block in use.
pub open spec fn taken(b: Block, need: int) -> Seq<Block> {
    if b.splits(need) {
        seq![
            Block { start: b.start, size: need, free: false },
            Block { start: b.start + UNIT + need, size: b.size - need - UNIT, free: true },
        ]
    } else {
        seq![Block { start: b.start, size: b.size, free: false }]
    }
}

/// The row after `need` bytes were allocated from its free block `i`.
pub open spec fn placed(blocks: Seq<Block>, i: int, need: int) -> Seq<Block> {
    splice(blocks, i, i + 1, taken(blocks[i], need))
}

/// The row after a used block of `need` bytes was carved at the high-water
/// mark.
pub open spec fn carved(blocks: Seq<Block>, need: int) -> Seq<Block> {
    blocks.push(Block { start: high_water(blocks), size: need, free: false })
}

/// Index of the first of the blocks that merge when block `i` is released:
/// its lower neighbour if that is free, else `i` itself.
pub open spec fn merge_from(blocks: Seq<Block>, i: int) -> int {
    if i > 0 && blocks[i - 1].free {
        i - 1
    } else {
        i
    }
}

/// Index of the last of the blocks that merge when block `i` is released:
/// its upper neighbour if that is free, else `i` itself.
pub open spec fn merge_to(blocks: Seq<Block>, i: int) -> int {
    if i + 1 < blocks.len() && blocks[i + 1].free {
        i + 1
    } else {
        i
    }
}

/// The one free block that spans the blocks `lo..=hi`.
pub open spec fn span(blocks: Seq<Block>, lo: int, hi: int) -> Block {
    Block { start: blocks[lo].start, size: blocks[hi].end() - blocks[lo].start - UNIT, free: true }
}

/// The row after block `i` was released: the block and its free neighbours
/// have become one free block.
pub open spec fn freed(blocks: Seq<Block>, i: int) -> Seq<Block> {
    let lo = merge_from(blocks, i);
    let hi = merge_to(blocks, i);
    splice(blocks, lo, hi + 1, seq![span(blocks, lo, hi)])
}

/// What is taken from a block fills the block's room.
pub proof fn lemma_taken(b: Block, need: int)
    requires
        b.well_sized(),
        b.size >= need,
        need >= UNIT,
        aligned(need),
    ensures
        chained(taken(b, need)),
        coalesced(taken(b, need)),
        taken(b, need).len() == (if b.splits(need) {
            2int
        } else {
            1int
        }),
        taken(b, need)[0].start == b.start,
        !taken(b, need)[0].free,
        taken(b, need)[0].size >= need,
        taken(b, need).last().end() == b.end(),
{
    lemma_aligned_unit();
    lemma_aligned_sum(b.start, UNIT as int);
    lemma_aligned_sum(b.start + UNIT, need);
    lemma_aligned_sum(b.size, need);
    lemma_aligned_sum(b.size - need, UNIT as int);
    let pieces = taken(b, need);
    if b.splits(need) {
        assert(pieces[0].well_sized());
        assert(pieces[1].well_sized());
    } else {
        assert(pieces[0].well_sized());
    }
}

/// The block that spans a run of a chain is well sized.
pub proof fn lemma_span(blocks: Seq<Block>, lo: int, hi: int)
    requires
        chained(blocks),
        0 <= lo <= hi < blocks.len(),
    ensures
        span(blocks, lo, hi).well_sized(),
        span(blocks, lo, hi).size >= blocks[lo].size,
        span(blocks, lo, hi).size >= blocks[hi].size,
        span(blocks, lo, hi).end() == blocks[hi].end(),
        chained(seq![span(blocks, lo, hi)]),
        coalesced(seq![span(blocks, lo, hi)]),
        seq![span(blocks, lo, hi)].len() == 1,
        seq![span(blocks, lo, hi)][0] == span(blocks, lo, hi),
{
    if lo < hi {
        lemma_chained_ordered(blocks, lo, hi);
    }
    assert(blocks[lo].well_sized());
    assert(blocks[hi].well_sized());
    lemma_block_aligned(blocks[hi]);
    lemma_block_aligned(blocks[lo]);
    lemma_aligned_sum(blocks[hi].end(), blocks[lo].payload());
    lemma_single(span(blocks, lo, hi));
}

/// Allocating from a free block that fits keeps the row tiled and coalesced
/// and does not move the high-water mark.
pub proof fn lemma_placed(blocks: Seq<Block>, i: int, need: int)
    requires
        tiled(blocks),
        coalesced(blocks),
        0 <= i < blocks.len(),
        blocks[i].fits(need),
        need >= UNIT,
        aligned(need),
    ensures
        tiled(placed(blocks, i, need)),
        coalesced(placed(blocks, i, need)),
        high_water(placed(blocks, i, need)) == high_water(blocks),
{
    let pieces = taken(blocks[i], need);
    assert(blocks[i].well_sized());
    lemma_taken(blocks[i], need);
    lemma_splice_tiled(blocks, i, i + 1, pieces);
    if i + 1 < blocks.len() {
        assert(!(blocks[i].free && blocks[i + 1].free));
    }
    lemma_splice_coalesced(blocks, i, i + 1, pieces);
}

/// Carving keeps the row tiled and coalesced and moves the high-water mark
/// by the new block's header and payload.
pub proof fn lemma_carved(blocks: Seq<Block>, need: int)
    requires
        tiled(blocks),
        coalesced(blocks),
        need >= UNIT,
        aligned(need),
    ensures
        tiled(carved(blocks, need)),
        coalesced(carved(blocks, need)),
        high_water(carved(blocks, need)) == high_water(blocks) + UNIT + need,
{
    let s = carved(blocks, need);
    lemma_high_water_aligned(blocks);
    assert forall|x: int| 0 <= x < s.len() implies (#[trigger] s[x]).well_sized() by {
        if x < blocks.len() {
            assert(s[x] == blocks[x]);
        }
    }
    assert forall|x: int, y: int| 0 <= x && y == x + 1 && y < s.len() implies (#[trigger] s[y]).start
        == (#[trigger] s[x]).end() by {
        assert(s[x] == blocks[x]);
        if y < blocks.len() {
            assert(s[y] == blocks[y]);
        }
    }
    assert forall|x: int, y: int| 0 <= x && y == x + 1 && y < s.len() implies !((#[trigger] s[x]).free
        && (#[trigger] s[y]).free) by {
        assert(s[x] == blocks[x]);
        if y < blocks.len() {
            assert(s[y] == blocks[y]);
        }
    }
}

/// Releasing a used block keeps the row tiled and coalesced and does not
/// move the high-water mark.
pub proof fn lemma_freed(blocks: Seq<Block>, i: int)
    requires
        tiled(blocks),
        coalesced(blocks),
        0 <= i < blocks.len(),
        !blocks[i].free,
    ensures
        tiled(freed(blocks, i)),
        coalesced(freed(blocks, i)),
        high_water(freed(blocks, i)) == high_water(blocks),
{
    let lo = merge_from(blocks, i);
    let hi = merge_to(blocks, i);
    let pieces = seq![span(blocks, lo, hi)];
    lemma_span(blocks, lo, hi);
    lemma_splice_tiled(blocks, lo, hi + 1, pieces);
    if lo > 0 {
        assert(!(blocks[lo - 1].free && blocks[lo].free));
    }
    if hi + 1 < blocks.len() {
        assert(!(blocks[hi].free && blocks[hi + 1].free));
    }
    lemma_splice_coalesced(blocks, lo, hi + 1, pieces);
}

/// The abstract state of a heap: how large its arena is and how it is carved
/// into blocks.
pub struct HeapView {
    /// Size of the arena in bytes.
    pub capacity: int,
    /// The blocks, in address order.
    pub blocks: Seq<Block>,
}

impl HeapView {
    /// The blocks tile the carved part of the arena, stay inside it, and no
    /// two free blocks lie side by side.
    pub open spec fn wf(self) -> bool {
        &&& tiled(self.blocks)
        &&& coalesced(self.blocks)
        &&& high_water(self.blocks) <= self.capacity
    }

    /// How far the arena has been carved.
    pub open spec fn high_water(self) -> int {
        high_water(self.blocks)
    }

    /// Block `i` is in use and its payload starts at `p`.
    pub open spec fn live_at(self, i: int, p: int) -> bool {
        0 <= i < self.blocks.len() && !self.blocks[i].free && self.blocks[i].payload() == p
    }

    /// `p` is the payload offset of a block in use: it was handed out by an
    /// allocation and not released since.
    pub open spec fn is_live(self, p: int) -> bool {
        exists|i: int| #[trigger] self.live_at(i, p)
    }

    /// The live payloads, each with its usable length.
    pub open spec fn live(self) -> Map<int, int> {
        Map::new(|p: int| self.is_live(p), |p: int| self.usable_size(p))
    }

    /// Index of the block whose payload starts at `p`.
    pub open spec fn index_of(self, p: int) -> int {
        choose|i: int| 0 <= i < self.blocks.len() && (#[trigger] self.blocks[i]).payload() == p
    }

    /// Usable length of the payload at `p`.
    pub open spec fn usable_size(self, p: int) -> int {
        self.blocks[self.index_of(p)].size
    }

    /// Whether a request of `n` bytes can be served: some free block holds
    /// the rounded size, or there is room above the high-water mark for a
    /// header and the rounded size.
    pub open spec fn can_allocate(self, n: int) -> bool {
        ||| first_fit(self.blocks, rounded(n), 0) < self.blocks.len()
        ||| self.high_water() + UNIT + rounded(n) <= self.capacity
    }

    /// Payload offset that a request of `n` bytes is served with: that of
    /// the first fit, else that of a block carved at the high-water mark.
    pub open spec fn allocation(self, n: int) -> int {
        let i = first_fit(self.blocks, rounded(n), 0);
        if i < self.blocks.len() {
            self.blocks[i].payload()
        } else {
            self.high_water() + UNIT
        }
    }

    /// The state after a request of `n` bytes: served from the first fit,
    /// else by carving, else not at all.
    pub open spec fn allocate(self, n: int) -> HeapView {
        let need = rounded(n);
        let i = first_fit(self.blocks, need, 0);
        if i < self.blocks.len() {
            HeapView { capacity: self.capacity, blocks: placed(self.blocks, i, need) }
        } else if self.high_water() + UNIT + need <= self.capacity {
            HeapView { capacity: self.capacity, blocks: carved(self.blocks, need) }
        } else {
            self
        }
    }

    /// The state after the payload at `p` was released.
    pub open spec fn release(self, p: int) -> HeapView {
        HeapView { capacity: self.capacity, blocks: freed(self.blocks, self.index_of(p)) }
    }

    /// A live payload belongs to exactly one block, which `index_of` finds.
    pub proof fn lemma_index_of(self, i: int, p: int)
        requires
            chained(self.blocks),
            0 <= i < self.blocks.len(),
            self.blocks[i].payload() == p,
        ensures
            self.index_of(p) == i,
    {
        let j = self.index_of(p);
        assert(0 <= j < self.blocks.len() && self.blocks[j].payload() == p);
        lemma_chained_index_order(self.blocks, i, j);
    }
}

} // verus!
