//! The allocator: one arena of bytes with a header before each payload, a
//! free list of header offsets in address order, and the high-water mark up
//! to which the arena has been carved.
//!
//! Offsets stand for addresses: a payload offset counts bytes from the
//! arena's base. Allocation never clears a payload, so a caller must not
//! expect zeroed memory.

use vstd::prelude::*;
use crate::arena::{header_free, header_size, read_free, read_size, write_header};
use crate::laws::{
    lemma_allocate_inserts, lemma_allocate_live, lemma_allocation_serves, lemma_release_live,
    lemma_release_removes,
};
use crate::layout::{
    aligned, header_offset, lemma_aligned, lemma_rounded, payload_offset, round_up, rounded, UNIT,
};
use crate::model::{
    carved, first_fit, freed, high_water, lemma_below_high_water, lemma_carved,
    lemma_chained_index_order, lemma_first_fit, lemma_first_fit_is, lemma_freed, lemma_placed,
    merge_from, merge_to, placed, Block, HeapView,
};
use crate::repr::{
    header_matches, lemma_carve, lemma_header_keeps_payloads, lemma_listed_block,
    lemma_listed_once, lemma_neighbours, lemma_payload_rewritten, lemma_place_split,
    lemma_place_whole, lemma_release, lemma_scan_failed, lemma_scan_found, lemma_slot,
    occurrences, payloads_kept, relinked, represents, slot_of,
};
use crate::scan::{
    acceptable, block_at, describes, lemma_scan_done, lemma_scan_reject, lemma_scan_start,
    lemma_scan_step, scanned,
};

verus! {

/// Why the heap refused a call.
#[derive(Clone, Copy, Debug, PartialEq, Eq, Structural)]
pub enum AllocError {
    /// No free block holds the request and the arena has no room left to
    /// carve one.
    OutOfMemory,
    /// The offset to release is not the payload of a block in use: it was
    /// never handed out, or it was released already.
    InvalidRelease,
}

/// A heap over a single arena.
pub struct Heap {
    arena: Vec<u8>,
    free_list: Vec<usize>,
    high_water: usize,
    blocks: Ghost<Seq<Block>>,
}

impl View for Heap {
    type V = HeapView;

    closed spec fn view(&self) -> HeapView {
        HeapView { capacity: self.arena@.len() as int, blocks: self.blocks@ }
    }
}

impl Heap {
    /// The bytes of the arena.
    pub closed spec fn memory(&self) -> Seq<u8> {
        self.arena@
    }

    /// The bytes of the payload at `p`: what the caller who holds `p` has
    /// stored there.
    pub open spec fn contents(&self, p: int) -> Seq<u8> {
        self.memory().subrange(p, p + self@.usable_size(p))
    }

    /// The free list: header offsets of the free blocks.
    pub closed spec fn links(&self) -> Seq<usize> {
        self.free_list@
    }

    /// The heap's invariant: arena and free list describe the blocks of the
    /// view, and the high-water mark is where the last block ends.
    pub closed spec fn wf(&self) -> bool {
        &&& represents(self.arena@, self.free_list@, self.blocks@)
        &&& self.high_water == high_water(self.blocks@)
    }

    /// The high-water mark as the heap records it.
    pub closed spec fn mark(&self) -> int {
        self.high_water as int
    }

    /// Arena, free list and recorded high-water mark fit together: there is
    /// a row of blocks that they describe.
    pub open spec fn consistent(&self) -> bool {
        exists|blocks: Seq<Block>| describes(self.memory(), self.links(), self.mark(), blocks)
    }

    /// What the invariant says in terms of the view: arena and free list
    /// describe the blocks of the view, so each free block has its one entry
    /// in the free list and no used block has any.
    pub proof fn lemma_wf(&self)
        requires
            self.wf(),
        ensures
            self@.wf(),
            self@.capacity == self.memory().len(),
            self@.high_water() == self.mark(),
            describes(self.memory(), self.links(), self.mark(), self@.blocks),
            self.consistent(),
    {
    }

    /// A heap over a fresh arena of `capacity` bytes, nothing carved yet.
    pub fn new(capacity: usize) -> (heap: Heap)
        ensures
            heap.wf(),
            heap@ == (HeapView { capacity: capacity as int, blocks: Seq::empty() }),
    {
        Heap {
            arena: vec![0u8; capacity],
            free_list: Vec::new(),
            high_water: 0,
            blocks: Ghost(Seq::empty()),
        }
    }

    /// Size of the arena in bytes.
    pub fn capacity(&self) -> (capacity: usize)
        ensures
            capacity == self@.capacity,
    {
        self.arena.len()
    }

    /// How far the arena has been carved into blocks.
    pub fn high_water_mark(&self) -> (mark: usize)
        requires
            self.wf(),
        ensures
            mark == self@.high_water(),
    {
        self.high_water
    }

    /// The free list: the header offsets of the free blocks, in address
    /// order.
    pub fn free_blocks(&self) -> (list: Vec<usize>)
        ensures
            list@ == self.links(),
    {
        self.free_list.clone()
    }

    /// Scans the free list in address order for the first block that holds
    /// `need` bytes.
    fn find_fit(&self, need: usize) -> (found: Option<usize>)
        requires
            self.wf(),
        ensures
            match found {
                Some(k) => {
                    let i = first_fit(self.blocks@, need as int, 0);
                    &&& k < self.free_list@.len()
                    &&& i < self.blocks@.len()
                    &&& self.free_list@[k as int] == self.blocks@[i].start
                },
                None => first_fit(self.blocks@, need as int, 0) == self.blocks@.len(),
            },
    {
        let mut k: usize = 0;
        while k < self.free_list.len()
            invariant
                self.wf(),
                k <= self.free_list@.len(),
                forall|x: int|
                    0 <= x < k ==> header_size(self.arena@, (#[trigger] self.free_list@[x]) as int)
                        < need,
            decreases self.free_list@.len() - k,
        {
            let a = self.free_list[k];
            proof {
                let i = lemma_listed_block(self.free_list@, self.blocks@, k as int);
                lemma_below_high_water(self.blocks@, i);
            }
            let size = read_size(&self.arena, a);
            if size >= need as u64 {
                proof {
                    lemma_scan_found(
                        self.arena@,
                        self.free_list@,
                        self.blocks@,
                        k as int,
                        need as int,
                    );
                }
                return Some(k);
            }
            k += 1;
        }
        proof {
            lemma_scan_failed(self.arena@, self.free_list@, self.blocks@, need as int);
        }
        None
    }

    /// Serves `need` bytes from the free block that entry `k` of the free
    /// list names, splitting the block where the rest can stand alone.
    fn place(&mut self, k: usize, need: usize) -> (p: usize)
        requires
            old(self).wf(),
            need >= UNIT,
            aligned(need as int),
            k < old(self).free_list@.len(),
            first_fit(old(self).blocks@, need as int, 0) < old(self).blocks@.len(),
            old(self).free_list@[k as int] == old(self).blocks@[first_fit(
                old(self).blocks@,
                need as int,
                0,
            )].start,
        ensures
            final(self).wf(),
            final(self)@.capacity == old(self)@.capacity,
            final(self)@.blocks == placed(
                old(self).blocks@,
                first_fit(old(self).blocks@, need as int, 0),
                need as int,
            ),
            p == old(self).blocks@[first_fit(old(self).blocks@, need as int, 0)].payload(),
            payloads_kept(old(self).arena@, final(self).arena@, old(self).blocks@),
    {
        let ghost blocks = self.blocks@;
        let ghost list = self.free_list@;
        let ghost before = self.arena@;
        let ghost i = first_fit(blocks, need as int, 0);
        proof {
            lemma_first_fit(blocks, need as int, 0);
            lemma_below_high_water(blocks, i);
            assert(header_matches(before, blocks[i]));
            assert(blocks[i].well_sized());
        }
        let a = self.free_list[k];
        let size = read_size(&self.arena, a) as usize;
        if size - need >= 2 * UNIT {
            let rest = a + UNIT + need;
            write_header(&mut self.arena, rest, (size - need - UNIT) as u64, true);
            let ghost between = self.arena@;
            write_header(&mut self.arena, a, need as u64, false);
            self.free_list.set(k, rest);
            proof {
                lemma_header_keeps_payloads(
                    before,
                    between,
                    blocks,
                    i,
                    rest as int,
                    size - need - UNIT,
                    true,
                );
                lemma_header_keeps_payloads(
                    between,
                    self.arena@,
                    blocks,
                    i,
                    a as int,
                    need as int,
                    false,
                );
                lemma_place_split(
                    before,
                    between,
                    self.arena@,
                    list,
                    blocks,
                    k as int,
                    i,
                    need as int,
                    rest,
                );
            }
        } else {
            write_header(&mut self.arena, a, size as u64, false);
            self.free_list.remove(k);
            proof {
                lemma_header_keeps_payloads(
                    before,
                    self.arena@,
                    blocks,
                    i,
                    a as int,
                    size as int,
                    false,
                );
                lemma_place_whole(before, self.arena@, list, blocks, k as int, i, need as int);
            }
        }
        self.blocks = Ghost(placed(blocks, i, need as int));
        proof {
            lemma_placed(blocks, i, need as int);
        }
        payload_offset(a)
    }

    /// Carves a used block of `need` bytes at the high-water mark.
    fn carve(&mut self, need: usize) -> (p: usize)
        requires
            old(self).wf(),
            need >= UNIT,
            aligned(need as int),
            old(self)@.high_water() + UNIT + need <= old(self)@.capacity,
        ensures
            final(self).wf(),
            final(self)@.capacity == old(self)@.capacity,
            final(self)@.blocks == carved(old(self).blocks@, need as int),
            p == old(self)@.high_water() + UNIT,
            payloads_kept(old(self).arena@, final(self).arena@, old(self).blocks@),
    {
        let ghost blocks = self.blocks@;
        let ghost before = self.arena@;
        let a = self.high_water;
        assert(a + UNIT + need <= self.arena.len());
        write_header(&mut self.arena, a, need as u64, false);
        self.high_water = a + UNIT + need;
        self.blocks = Ghost(carved(blocks, need as int));
        proof {
            lemma_header_keeps_payloads(before, self.arena@, blocks, 0, a as int, need as int, false);
            lemma_carve(before, self.arena@, self.free_list@, blocks, need as int);
            lemma_carved(blocks, need as int);
        }
        payload_offset(a)
    }

    /// Allocates `n` bytes: from the first free block, in address order,
    /// that holds the rounded size; else from fresh arena at the high-water
    /// mark; else not at all. A request of no bytes is served like a request
    /// of one.
    pub fn allocate(&mut self, n: usize) -> (r: Result<usize, AllocError>)
        requires
            old(self).wf(),
        ensures
            final(self).wf(),
            final(self)@ == old(self)@.allocate(n as int),
            r is Ok <==> old(self)@.can_allocate(n as int),
            r matches Ok(p) ==> p == old(self)@.allocation(n as int),
            r matches Ok(p) ==> {
                &&& p % UNIT == 0
                &&& !old(self)@.is_live(p as int)
                &&& final(self)@.is_live(p as int)
                &&& final(self)@.usable_size(p as int) >= n
                &&& p + final(self)@.usable_size(p as int) <= final(self)@.high_water()
                &&& final(self)@.live() == old(self)@.live().insert(
                    p as int,
                    final(self)@.usable_size(p as int),
                )
            },
            r matches Err(e) ==> e == AllocError::OutOfMemory && final(self).memory() == old(
                self,
            ).memory() && final(self).links() == old(self).links(),
            forall|q: int|
                old(self)@.is_live(q) ==> #[trigger] final(self).contents(q) == old(self).contents(
                    q,
                ),
    {
        proof {
            lemma_rounded(n as int);
            if self@.can_allocate(n as int) {
                lemma_allocation_serves(self@, n as int);
                lemma_allocate_live(self@, n as int, 0);
                lemma_allocate_inserts(self@, n as int);
            }
        }
        let capacity = self.arena.len();
        let need = match round_up(n) {
            Some(need) => need,
            None => {
                proof {
                    let blocks = self.blocks@;
                    assert forall|j: int| 0 <= j < blocks.len() implies !(#[trigger] blocks[j]).fits(
                        rounded(n as int),
                    ) by {
                        lemma_below_high_water(blocks, j);
                    }
                    lemma_first_fit_is(blocks, rounded(n as int), 0, blocks.len() as int);
                }
                return Err(AllocError::OutOfMemory);
            },
        };
        let r = match self.find_fit(need) {
            Some(k) => Ok(self.place(k, need)),
            None => {
                let room = capacity - self.high_water;
                if room >= UNIT && room - UNIT >= need {
                    Ok(self.carve(need))
                } else {
                    Err(AllocError::OutOfMemory)
                }
            },
        };
        proof {
            assert forall|q: int| old(self)@.is_live(q) implies #[trigger] self.contents(q) == old(
                self,
            ).contents(q) by {
                if r is Ok {
                    lemma_allocate_live(old(self)@, n as int, q);
                    Self::lemma_contents_kept(*old(self), *self, q);
                }
            }
        }
        r
    }

    /// Payload bytes that no write touched are the same contents.
    proof fn lemma_contents_kept(before: Heap, after: Heap, q: int)
        requires
            before.wf(),
            before@.is_live(q),
            after@.usable_size(q) == before@.usable_size(q),
            after.arena@.len() == before.arena@.len(),
            payloads_kept(before.arena@, after.arena@, before.blocks@),
        ensures
            after.contents(q) == before.contents(q),
    {
        let j = choose|j: int| #[trigger] before@.live_at(j, q);
        before@.lemma_index_of(j, q);
        lemma_below_high_water(before.blocks@, j);
        assert(before.blocks@[j].end() == q + before@.usable_size(q));
        assert(after.contents(q) =~= before.contents(q));
    }

    /// The bijection of headers and free list, as it holds of every
    /// well-formed heap: each block's header carries the block's tag, a free
    /// block has exactly one entry in the free list, and a used block none.
    pub proof fn lemma_tags_and_links(&self, i: int)
        requires
            self.wf(),
            0 <= i < self@.blocks.len(),
        ensures
            header_free(self.memory(), self@.blocks[i].start) == self@.blocks[i].free,
            occurrences(self.links(), self@.blocks[i].start) == (if self@.blocks[i].free {
                1nat
            } else {
                0nat
            }),
    {
        assert(header_matches(self.arena@, self.blocks@[i]));
        lemma_listed_once(self.free_list@, self.blocks@, i);
    }

    /// The whole arena, to read: headers and payloads as they lie in memory.
    pub fn arena(&self) -> (bytes: &[u8])
        ensures
            bytes@ == self.memory(),
    {
        self.arena.as_slice()
    }

    /// Whether `p` is the payload offset of a block in use. Walks the
    /// headers from the bottom of the arena.
    pub fn is_live(&self, p: usize) -> (live: bool)
        requires
            self.wf(),
        ensures
            live == self@.is_live(p as int),
    {
        let mut a: usize = 0;
        let ghost mut m: int = 0;
        while a < self.high_water
            invariant
                self.wf(),
                0 <= m <= self.blocks@.len(),
                a == high_water(self.blocks@.take(m)),
                a <= self.high_water,
                forall|j: int| 0 <= j < m ==> (#[trigger] self.blocks@[j]).payload() != p,
            decreases self.blocks@.len() - m,
        {
            proof {
                let blocks = self.blocks@;
                if m == blocks.len() {
                    assert(blocks.take(m) =~= blocks);
                }
                if m > 0 {
                    assert(blocks.take(m).last() == blocks[m - 1]);
                    assert(blocks[m].start == blocks[m - 1].end());
                }
                lemma_below_high_water(blocks, m);
                assert(header_matches(self.arena@, blocks[m]));
                assert(blocks.take(m + 1).last() == blocks[m]);
            }
            if payload_offset(a) == p {
                proof {
                    assert(self.blocks@[m].payload() == p);
                    if self@.is_live(p as int) {
                        let j = choose|j: int| #[trigger] self@.live_at(j, p as int);
                        lemma_chained_index_order(self.blocks@, j, m);
                    } else {
                        assert(!self@.live_at(m, p as int));
                    }
                }
                return !read_free(&self.arena, a);
            }
            let size = read_size(&self.arena, a) as usize;
            a = a + UNIT + size;
            proof {
                m = m + 1;
            }
        }
        proof {
            let blocks = self.blocks@;
            if m < blocks.len() {
                if m > 0 {
                    assert(blocks.take(m).last() == blocks[m - 1]);
                    assert(blocks[m].start == blocks[m - 1].end());
                }
                lemma_below_high_water(blocks, m);
                assert(blocks[m].well_sized());
            }
            if self@.is_live(p as int) {
                let j = choose|j: int| #[trigger] self@.live_at(j, p as int);
                assert(blocks[j].payload() != p);
            }
        }
        false
    }

    /// Usable length of the live payload at `p`, read from its header.
    pub fn usable_size(&self, p: usize) -> (size: usize)
        requires
            self.wf(),
            self@.is_live(p as int),
        ensures
            size == self@.usable_size(p as int),
    {
        proof {
            let w = choose|w: int| #[trigger] self@.live_at(w, p as int);
            self@.lemma_index_of(w, p as int);
            lemma_below_high_water(self.blocks@, w);
            assert(header_matches(self.arena@, self.blocks@[w]));
            assert(self.blocks@[w].well_sized());
        }
        let limit = self.arena.len();
        let size = read_size(&self.arena, header_offset(p));
        assert(size <= limit);
        size as usize
    }

    /// The payload at `p`, to read.
    pub fn payload(&self, p: usize) -> (bytes: &[u8])
        requires
            self.wf(),
            self@.is_live(p as int),
        ensures
            bytes@ == self.contents(p as int),
    {
        let size = self.usable_size(p);
        proof {
            let w = choose|w: int| #[trigger] self@.live_at(w, p as int);
            self@.lemma_index_of(w, p as int);
            lemma_below_high_water(self.blocks@, w);
        }
        vstd::slice::slice_subrange(self.arena.as_slice(), p, p + size)
    }

    /// Copies `data` into the payload at `p`, from byte `at` of the payload
    /// on. Nothing but these bytes changes: headers, free list and every
    /// other payload stay as they are.
    pub fn store(&mut self, p: usize, at: usize, data: &[u8])
        requires
            old(self).wf(),
            old(self)@.is_live(p as int),
            at + data@.len() <= old(self)@.usable_size(p as int),
        ensures
            final(self).wf(),
            final(self)@ == old(self)@,
            final(self).links() == old(self).links(),
            final(self).contents(p as int) == old(self).contents(p as int).take(at as int) + data@
                + old(self).contents(p as int).skip(at + data@.len()),
            forall|q: int|
                old(self)@.is_live(q) && q != p ==> #[trigger] final(self).contents(q) == old(
                    self,
                ).contents(q),
    {
        let ghost before = self.arena@;
        let ghost blocks = self.blocks@;
        let ghost m = self@.index_of(p as int);
        proof {
            let w = choose|w: int| #[trigger] self@.live_at(w, p as int);
            self@.lemma_index_of(w, p as int);
            lemma_below_high_water(blocks, m);
        }
        let limit = self.arena.len();
        let base = p + at;
        let mut i: usize = 0;
        while i < data.len()
            invariant
                i <= data@.len(),
                base + data@.len() <= before.len(),
                before.len() == limit,
                self.arena@.len() == before.len(),
                self.free_list == old(self).free_list,
                self.high_water == old(self).high_water,
                self.blocks == old(self).blocks,
                forall|x: int|
                    0 <= x < before.len() && !(base <= x < base + i) ==> #[trigger] self.arena@[x]
                        == before[x],
                forall|x: int|
                    base <= x < base + i ==> #[trigger] self.arena@[x] == data@[x - base],
            decreases data@.len() - i,
        {
            self.arena.set(base + i, data[i]);
            i += 1;
        }
        proof {
            lemma_payload_rewritten(before, self.arena@, self.free_list@, blocks, m);
            assert(self.contents(p as int) =~= old(self).contents(p as int).take(at as int) + data@
                + old(self).contents(p as int).skip(at + data@.len()));
            assert forall|q: int| old(self)@.is_live(q) && q != p implies #[trigger] self.contents(
                q,
            ) == old(self).contents(q) by {
                let j = choose|j: int| #[trigger] self@.live_at(j, q);
                self@.lemma_index_of(j, q);
                lemma_below_high_water(blocks, j);
                assert(blocks[j].payload() == q);
                assert(self.contents(q) =~= old(self).contents(q));
            }
        }
    }

    /// The consistency scan: walks the headers from the bottom of the arena
    /// to the recorded high-water mark, and the free list beside them, and
    /// tells whether they fit together. It accepts every well-formed heap.
    pub fn is_consistent(&self) -> (ok: bool)
        ensures
            ok == self.consistent(),
            self.wf() ==> ok,
    {
        let mark = self.high_water;
        proof {
            if self.wf() {
                self.lemma_wf();
            }
        }
        if mark > self.arena.len() {
            return false;
        }
        let mut a: usize = 0;
        let mut k: usize = 0;
        let mut after_free = false;
        let ghost mut seen: Seq<Block> = Seq::empty();
        proof {
            lemma_scan_start(self.arena@, self.free_list@, mark as int);
        }
        while a < mark
            invariant
                mark == self.high_water,
                scanned(self.arena@, self.free_list@, mark as int, seen, a as int, k as int),
                after_free == (seen.len() > 0 && seen.last().free),
                self.wf() ==> describes(self.arena@, self.free_list@, mark as int, self.blocks@),
            decreases mark - a,
        {
            let ghost b = block_at(self.arena@, a as int);
            if mark - a < 2 * UNIT {
                proof {
                    lemma_scan_reject(
                        self.arena@,
                        self.free_list@,
                        mark as int,
                        seen,
                        a as int,
                        k as int,
                    );
                }
                return false;
            }
            let size = read_size(&self.arena, a);
            let free = read_free(&self.arena, a);
            let fits = size >= 16 && size % 16 == 0 && size <= (mark - a - UNIT) as u64;
            proof {
                lemma_aligned(size as int);
            }
            let linked = !free || (!after_free && k < self.free_list.len() && self.free_list[k]
                == a);
            if !fits || !linked {
                proof {
                    lemma_scan_reject(
                        self.arena@,
                        self.free_list@,
                        mark as int,
                        seen,
                        a as int,
                        k as int,
                    );
                }
                return false;
            }
            proof {
                assert(acceptable(self.free_list@, mark as int, seen, k as int, b));
                lemma_scan_step(
                    self.arena@,
                    self.free_list@,
                    mark as int,
                    seen,
                    a as int,
                    k as int,
                );
                seen = seen.push(b);
            }
            if free {
                k = k + 1;
            }
            after_free = free;
            a = a + UNIT + size as usize;
        }
        proof {
            lemma_scan_done(self.arena@, self.free_list@, mark as int, seen, k as int);
            if k == self.free_list@.len() {
                assert(describes(self.memory(), self.links(), self.mark(), seen));
            }
        }
        k == self.free_list.len()
    }

    /// Releases the payload at `p` if it is live, and refuses, leaving the
    /// heap as it is, if it is not: a release that fails closed on an offset
    /// that was never handed out or was released before.
    pub fn checked_release(&mut self, p: usize) -> (r: Result<(), AllocError>)
        requires
            old(self).wf(),
        ensures
            final(self).wf(),
            r is Ok <==> old(self)@.is_live(p as int),
            r is Ok ==> final(self)@ == old(self)@.release(p as int),
            r is Ok ==> forall|q: int|
                old(self)@.is_live(q) && q != p ==> #[trigger] final(self).contents(q) == old(
                    self,
                ).contents(q),
            r matches Err(e) ==> e == AllocError::InvalidRelease && final(self)@ == old(self)@
                && final(self).memory() == old(self).memory() && final(self).links() == old(
                self,
            ).links(),
    {
        if self.is_live(p) {
            self.release(p);
            Ok(())
        } else {
            Err(AllocError::InvalidRelease)
        }
    }

    /// Finds where the header at `a` belongs in the free list.
    fn slot(&self, a: usize, Ghost(i): Ghost<int>) -> (k: usize)
        requires
            self.wf(),
            0 <= i < self.blocks@.len(),
            !self.blocks@[i].free,
            self.blocks@[i].start == a,
        ensures
            slot_of(self.free_list@, k as int, a as int),
    {
        let mut k: usize = 0;
        while k < self.free_list.len() && self.free_list[k] < a
            invariant
                k <= self.free_list@.len(),
                forall|x: int| 0 <= x < k ==> (#[trigger] self.free_list@[x]) < a,
            decreases self.free_list@.len() - k,
        {
            k += 1;
        }
        proof {
            lemma_slot(self.free_list@, self.blocks@, i, k as int);
        }
        k
    }

    /// Releases the payload at `p`: its block is tagged free, merged with
    /// each neighbour by address that is free too, and linked into the free
    /// list in address order.
    pub fn release(&mut self, p: usize)
        requires
            old(self).wf(),
            old(self)@.is_live(p as int),
        ensures
            final(self).wf(),
            final(self)@ == old(self)@.release(p as int),
            final(self)@.high_water() == old(self)@.high_water(),
            final(self)@.live() == old(self)@.live().remove(p as int),
            forall|q: int|
                old(self)@.is_live(q) && q != p ==> #[trigger] final(self).contents(q) == old(
                    self,
                ).contents(q),
    {
        proof {
            lemma_release_removes(self@, p as int);
        }
        let ghost blocks = self.blocks@;
        let ghost list = self.free_list@;
        let ghost before = self.arena@;
        let ghost i = self@.index_of(p as int);
        proof {
            let w = choose|w: int| #[trigger] self@.live_at(w, p as int);
            self@.lemma_index_of(w, p as int);
            lemma_below_high_water(blocks, i);
            assert(header_matches(before, blocks[i]));
            assert(blocks[i].well_sized());
        }
        let a = header_offset(p);
        let size = read_size(&self.arena, a) as usize;
        let k = self.slot(a, Ghost(i));
        proof {
            lemma_neighbours(before, list, blocks, i, k as int);
            if k > 0 {
                let j = lemma_listed_block(list, blocks, k - 1);
                lemma_below_high_water(blocks, j);
                assert(header_matches(before, blocks[j]));
            }
            if k < list.len() {
                let j = lemma_listed_block(list, blocks, k as int);
                lemma_below_high_water(blocks, j);
                assert(header_matches(before, blocks[j]));
            }
        }
        let mut start = a;
        let mut total = size;
        let mut upper = false;
        let mut lower = false;
        if k < self.free_list.len() {
            let above = self.free_list[k];
            if above == a + UNIT + size {
                total = total + UNIT + read_size(&self.arena, above) as usize;
                upper = true;
            }
        }
        if k > 0 {
            let below = self.free_list[k - 1];
            let below_size = read_size(&self.arena, below) as usize;
            if below + UNIT + below_size == a {
                total = below_size + UNIT + total;
                start = below;
                lower = true;
            }
        }
        proof {
            let lo = merge_from(blocks, i);
            let hi = merge_to(blocks, i);
            assert(lower == (lo < i));
            assert(upper == (hi > i));
            assert(start == blocks[lo].start);
            assert(total == blocks[hi].end() - blocks[lo].start - UNIT);
        }
        write_header(&mut self.arena, start, total as u64, true);
        if lower && upper {
            self.free_list.remove(k);
        } else if lower {
        } else if upper {
            self.free_list.set(k, a);
        } else {
            self.free_list.insert(k, a);
        }
        self.blocks = Ghost(freed(blocks, i));
        proof {
            lemma_release(before, self.arena@, list, blocks, i, k as int, a);
            assert(self.free_list@ == relinked(
                list,
                k as int,
                a,
                merge_from(blocks, i) < i,
                merge_to(blocks, i) > i,
            ));
            lemma_freed(blocks, i);
            lemma_header_keeps_payloads(
                before,
                self.arena@,
                blocks,
                merge_from(blocks, i),
                start as int,
                total as int,
                true,
            );
            assert forall|q: int| old(self)@.is_live(q) && q != p implies #[trigger] self.contents(
                q,
            ) == old(self).contents(q) by {
                lemma_release_live(old(self)@, p as int, q);
                Self::lemma_contents_kept(*old(self), *self, q);
            }
        }
    }
}

} // verus!
