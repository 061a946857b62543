//! The consistency scan: walking the headers from the bottom of the arena
//! and the free list beside them, and why the walk accepts exactly the
//! arenas that some row of blocks describes.

use vstd::prelude::*;
use crate::arena::{header_free, header_size};
use crate::layout::{aligned, UNIT};
use crate::model::{
    coalesced, free_start, high_water, lemma_below_high_water, lemma_chained_index_order,
    lemma_high_water_aligned, tiled, Block,
};
use crate::repr::{header_matches, headers_match, listed, lists_free, represents};

verus! {

/// Bytes, free list and high-water mark are those of the row of blocks.
pub open spec fn describes(bytes: Seq<u8>, list: Seq<usize>, mark: int, blocks: Seq<Block>) -> bool {
    &&& represents(bytes, list, blocks)
    &&& high_water(blocks) == mark
}

/// The block that the header at `a` stands for.
pub open spec fn block_at(bytes: Seq<u8>, a: int) -> Block {
    Block { start: a, size: header_size(bytes, a), free: header_free(bytes, a) }
}

/// `seen` is the beginning of `row`.
pub open spec fn is_prefix(seen: Seq<Block>, row: Seq<Block>) -> bool {
    &&& seen.len() <= row.len()
    &&& forall|j: int| 0 <= j < seen.len() ==> #[trigger] row[j] == seen[j]
}

/// The walk has come to offset `a` and to entry `k` of the free list: the
/// blocks seen so far are sound and agree with the entries passed, and any
/// row that the arena may stand for begins with them.
pub open spec fn scanned(
    bytes: Seq<u8>,
    list: Seq<usize>,
    mark: int,
    seen: Seq<Block>,
    a: int,
    k: int,
) -> bool {
    &&& tiled(seen)
    &&& coalesced(seen)
    &&& high_water(seen) == a
    &&& a <= mark <= bytes.len()
    &&& headers_match(bytes, seen)
    &&& 0 <= k <= list.len()
    &&& lists_free(list.take(k), seen)
    &&& forall|w: Seq<Block>| #[trigger] describes(bytes, list, mark, w) ==> is_prefix(seen, w)
}

/// The next block may join the blocks seen: it is well sized, ends within
/// the carved part, and if it is free, it follows no free block and is the
/// next entry of the free list.
pub open spec fn acceptable(list: Seq<usize>, mark: int, seen: Seq<Block>, k: int, b: Block) -> bool {
    &&& b.size >= UNIT
    &&& aligned(b.size)
    &&& b.end() <= mark
    &&& b.free ==> {
        &&& !(seen.len() > 0 && seen.last().free)
        &&& k < list.len()
        &&& list[k] == b.start
    }
}

/// The walk starts with nothing seen.
pub proof fn lemma_scan_start(bytes: Seq<u8>, list: Seq<usize>, mark: int)
    requires
        0 <= mark <= bytes.len(),
    ensures
        scanned(bytes, list, mark, Seq::empty(), 0, 0),
{
    let seen = Seq::<Block>::empty();
    assert forall|a: int| listed(list.take(0), a) <==> free_start(seen, a) by {}
}

/// The offsets below the walk: every entry passed lies below `a`.
proof fn lemma_passed_below(list: Seq<usize>, seen: Seq<Block>, k: int, x: int)
    requires
        tiled(seen),
        0 <= k <= list.len(),
        lists_free(list.take(k), seen),
        0 <= x < k,
    ensures
        list[x] < high_water(seen),
{
    let short = list.take(k);
    assert(short[x] == list[x]);
    assert(listed(short, list[x] as int));
    assert(free_start(seen, list[x] as int));
    let j = choose|j: int| 0 <= j < seen.len() && (#[trigger] seen[j]).free && seen[j].start == list[x];
    lemma_below_high_water(seen, j);
    assert(seen[j].well_sized());
}

/// Any row that the arena stands for goes on, after the blocks seen, with
/// the block that the header at `a` shows, and that block is acceptable.
proof fn lemma_next_block(
    bytes: Seq<u8>,
    list: Seq<usize>,
    mark: int,
    seen: Seq<Block>,
    a: int,
    k: int,
    w: Seq<Block>,
)
    requires
        scanned(bytes, list, mark, seen, a, k),
        a < mark,
        describes(bytes, list, mark, w),
    ensures
        seen.len() < w.len(),
        w[seen.len() as int] == block_at(bytes, a),
        acceptable(list, mark, seen, k, block_at(bytes, a)),
{
    let m = seen.len() as int;
    assert(is_prefix(seen, w));
    if w.len() == m {
        if m > 0 {
            assert(w[m - 1] == seen[m - 1]);
        }
        assert(false);
    }
    let b = w[m];
    if m > 0 {
        assert(w[m - 1] == seen[m - 1]);
        assert(b.start == w[m - 1].end());
        assert(!(w[m - 1].free && b.free));
    }
    assert(header_matches(bytes, b));
    assert(b.well_sized());
    lemma_below_high_water(w, m);
    if b.free {
        assert(free_start(w, a));
        assert(listed(list, a));
        let x = choose|x: int| 0 <= x < list.len() && (#[trigger] list[x]) == a;
        if x < k {
            lemma_passed_below(list, seen, k, x);
        }
        if list[k] != a {
            assert(list[k] <= list[x]);
            assert(listed(list, list[k] as int));
            assert(free_start(w, list[k] as int));
            let j = choose|j: int|
                0 <= j < w.len() && (#[trigger] w[j]).free && w[j].start == list[k];
            lemma_chained_index_order(w, j, m);
            assert(w[j] == seen[j]);
            assert(free_start(seen, list[k] as int));
            assert(listed(list.take(k), list[k] as int));
            let y = choose|y: int| 0 <= y < list.take(k).len() && (#[trigger] list.take(k)[y]) == list[k];
            assert(list[y] == list[k]);
        }
    }
}

/// A header that shows no acceptable block: no row of blocks describes the
/// arena.
pub proof fn lemma_scan_reject(
    bytes: Seq<u8>,
    list: Seq<usize>,
    mark: int,
    seen: Seq<Block>,
    a: int,
    k: int,
)
    requires
        scanned(bytes, list, mark, seen, a, k),
        a < mark,
        !acceptable(list, mark, seen, k, block_at(bytes, a)),
    ensures
        forall|w: Seq<Block>| !describes(bytes, list, mark, w),
{
    assert forall|w: Seq<Block>| !describes(bytes, list, mark, w) by {
        if describes(bytes, list, mark, w) {
            lemma_next_block(bytes, list, mark, seen, a, k, w);
        }
    }
}

/// An acceptable block joins the blocks seen, and its entry, if it is free,
/// the entries passed.
pub proof fn lemma_scan_step(
    bytes: Seq<u8>,
    list: Seq<usize>,
    mark: int,
    seen: Seq<Block>,
    a: int,
    k: int,
)
    requires
        scanned(bytes, list, mark, seen, a, k),
        a < mark,
        acceptable(list, mark, seen, k, block_at(bytes, a)),
    ensures
        scanned(
            bytes,
            list,
            mark,
            seen.push(block_at(bytes, a)),
            block_at(bytes, a).end(),
            if block_at(bytes, a).free {
                k + 1
            } else {
                k
            },
        ),
{
    let b = block_at(bytes, a);
    let m = seen.len() as int;
    let more = seen.push(b);
    let k2 = if b.free {
        k + 1
    } else {
        k
    };
    lemma_high_water_aligned(seen);
    assert(b.well_sized());
    assert forall|x: int| 0 <= x < more.len() implies (#[trigger] more[x]).well_sized() by {
        if x < m {
            assert(more[x] == seen[x]);
        }
    }
    assert forall|x: int, y: int| 0 <= x && y == x + 1 && y < more.len() implies (
    #[trigger] more[y]).start == (#[trigger] more[x]).end() by {
        assert(more[x] == seen[x]);
        if y < m {
            assert(more[y] == seen[y]);
        }
    }
    assert forall|x: int, y: int| 0 <= x && y == x + 1 && y < more.len() implies !((
    #[trigger] more[x]).free && (#[trigger] more[y]).free) by {
        assert(more[x] == seen[x]);
        if y < m {
            assert(more[y] == seen[y]);
        }
    }
    assert forall|x: int| 0 <= x < more.len() implies header_matches(bytes, #[trigger] more[x]) by {
        if x < m {
            assert(more[x] == seen[x]);
        }
    }
    let short = list.take(k);
    let long = list.take(k2);
    assert forall|x: int, y: int| 0 <= x < y < long.len() implies long[x] < long[y] by {
        if y < k {
            assert(short[x] < short[y]);
        } else {
            lemma_passed_below(list, seen, k, x);
        }
    }
    assert forall|x: int| listed(long, x) <==> free_start(more, x) by {
        assert(listed(short, x) <==> free_start(seen, x));
        if listed(long, x) {
            let y = choose|y: int| 0 <= y < long.len() && (#[trigger] long[y]) == x;
            if y < k {
                assert(short[y] == x);
            } else {
                assert(more[m] == b);
            }
        }
        if listed(short, x) {
            let y = choose|y: int| 0 <= y < short.len() && (#[trigger] short[y]) == x;
            assert(long[y] == x);
        }
        if free_start(seen, x) {
            let j = choose|j: int| 0 <= j < seen.len() && (#[trigger] seen[j]).free && seen[j].start == x;
            assert(more[j] == seen[j]);
        }
        if free_start(more, x) {
            let j = choose|j: int| 0 <= j < more.len() && (#[trigger] more[j]).free && more[j].start == x;
            if j < m {
                assert(more[j] == seen[j]);
            } else {
                assert(long[k] == x);
            }
        }
    }
    assert forall|w: Seq<Block>| #[trigger] describes(bytes, list, mark, w) implies is_prefix(
        more,
        w,
    ) by {
        lemma_next_block(bytes, list, mark, seen, a, k, w);
        assert forall|j: int| 0 <= j < more.len() implies #[trigger] w[j] == more[j] by {
            if j < m {
                assert(w[j] == seen[j]);
            }
        }
    }
}

/// At the high-water mark the walk accepts exactly if it has passed the
/// whole free list, and then the blocks seen describe the arena.
pub proof fn lemma_scan_done(
    bytes: Seq<u8>,
    list: Seq<usize>,
    mark: int,
    seen: Seq<Block>,
    k: int,
)
    requires
        scanned(bytes, list, mark, seen, mark, k),
    ensures
        k == list.len() ==> describes(bytes, list, mark, seen),
        k != list.len() ==> forall|w: Seq<Block>| !describes(bytes, list, mark, w),
{
    let m = seen.len() as int;
    if k == list.len() {
        assert(list.take(k) =~= list);
    } else {
        assert forall|w: Seq<Block>| !describes(bytes, list, mark, w) by {
            if describes(bytes, list, mark, w) {
                assert(is_prefix(seen, w));
                if w.len() > m {
                    if m > 0 {
                        assert(w[m - 1] == seen[m - 1]);
                        assert(w[m].start == w[m - 1].end());
                    }
                    lemma_below_high_water(w, m);
                    assert(w[m].well_sized());
                    assert(false);
                }
                assert(listed(list, list[k] as int));
                assert(free_start(w, list[k] as int));
                let j = choose|j: int|
                    0 <= j < w.len() && (#[trigger] w[j]).free && w[j].start == list[k];
                assert(w[j] == seen[j]);
                assert(free_start(seen, list[k] as int));
                assert(listed(list.take(k), list[k] as int));
                let y = choose|y: int|
                    0 <= y < list.take(k).len() && (#[trigger] list.take(k)[y]) == list[k];
                assert(list[y] == list[k]);
            }
        }
    }
}

} // verus!
